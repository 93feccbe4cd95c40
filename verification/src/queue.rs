//! A queue: a store of messages that any number of channels read, each at its own pace.
//!
//! The store and the disk are outside. Each operation takes what they have answered as plain
//! values, and returns what is to be done with them.

use crate::channel::{Channel, ChannelView};
use crate::message::Message;
use crate::names::{self, NameMap};
use vstd::prelude::*;

verus! {

/// What a queue is told when it is made.
#[derive(Debug)]
pub struct QueueConfig {
    /// The name of the queue.
    pub name: String,
    /// How long after it was handed out a message may be acknowledged.
    pub time_to_live: u32,
}

/// Whether a queue is there to stay.
#[derive(Debug, Clone, Copy, PartialEq, Eq, Structural)]
pub enum QueueState {
    /// The queue is in use.
    Ready,
    /// The queue is going away for good; a checkpoint keeps no channel of it.
    Deleting,
}

impl Default for QueueState {
    fn default() -> (state: QueueState)
        ensures
            state == QueueState::Ready,
    {
        QueueState::Ready
    }
}

/// What is told of a channel.
#[derive(Debug, Clone, Copy, PartialEq, Eq, Structural)]
pub struct ChannelInfo {
    /// The clock of the last call that named the channel.
    pub last_touched: u32,
    /// How many messages are in flight, those past their deadline left out.
    pub in_flight_count: u32,
    /// The id that the channel reads next.
    pub tail: u64,
}

/// What is told of a queue.
#[derive(Debug)]
pub struct QueueInfo {
    /// The id that the store gives to the next message.
    pub head: u64,
    /// The id of the oldest message in the store.
    pub tail: u64,
    /// What is told of each channel.
    pub channels: NameMap<ChannelInfo>,
}

/// What is kept of a channel on disk.
#[derive(Debug, Clone, Copy, PartialEq, Eq, Structural)]
pub struct ChannelCheckpoint {
    /// The clock of the last call that named the channel.
    pub last_touched: u32,
    /// Where the channel reads from when it comes back.
    pub tail: u64,
}

/// What is kept of a queue on disk.
#[derive(Debug)]
pub struct QueueCheckpoint {
    /// The state of the queue.
    pub state: QueueState,
    /// What is kept of each channel.
    pub channels: NameMap<ChannelCheckpoint>,
}

/// What a checkpoint asks of the outside.
#[derive(Debug)]
pub struct CheckpointPlan {
    /// Whether the store is to write its own checkpoint first, and if so, whether in full.
    pub store: Option<bool>,
    /// What is then to be written for the queue.
    pub record: QueueCheckpoint,
}

/// What maintenance asks of the outside.
#[derive(Debug)]
pub struct MaintenancePlan {
    /// The store may let go of the messages below this id.
    pub smallest_tail: u64,
    /// The checkpoint to write then.
    pub checkpoint: CheckpointPlan,
}

/// What to do next when several messages are pushed.
#[derive(Debug, Clone, Copy, PartialEq, Eq)]
pub enum PushStep {
    /// Push the message at this place.
    Push(usize),
    /// All are pushed, and this is what the call returns.
    Done(Option<u64>),
}

/// A checkpoint, over plain values.
#[verifier::ext_equal]
pub struct CheckpointView {
    /// The state of the queue.
    pub state: QueueState,
    /// What is kept of each channel.
    pub channels: Map<Seq<char>, ChannelCheckpoint>,
}

impl View for QueueCheckpoint {
    type V = CheckpointView;

    open spec fn view(&self) -> CheckpointView {
        CheckpointView { state: self.state, channels: self.channels@ }
    }
}

/// A queue, over plain values.
#[verifier::ext_equal]
pub struct QueueView {
    /// The name of the queue.
    pub name: Seq<char>,
    /// How long after it was handed out a message may be acknowledged.
    pub time_to_live: u32,
    /// The state of the queue.
    pub state: QueueState,
    /// The channels.
    pub channels: Map<Seq<char>, ChannelView>,
}

/// What is kept on disk of a channel.
pub open spec fn kept(channel: ChannelView) -> ChannelCheckpoint {
    ChannelCheckpoint { last_touched: channel.last_touched, tail: channel.real_tail() }
}

/// The channel that comes back from what was kept.
pub open spec fn restored(kept: ChannelCheckpoint) -> ChannelView {
    ChannelView::starting(kept.last_touched, kept.tail)
}

/// What is told of a channel at `clock`.
pub open spec fn told(channel: ChannelView, clock: u32) -> ChannelInfo {
    ChannelInfo {
        last_touched: channel.last_touched,
        in_flight_count: channel.alive_at(clock) as u32,
        tail: channel.tail,
    }
}

impl QueueView {
    /// A queue without channels.
    pub open spec fn empty(name: Seq<char>, time_to_live: u32) -> QueueView {
        QueueView { name, time_to_live, state: QueueState::Ready, channels: Map::empty() }
    }

    /// The queue with one channel put in place.
    pub open spec fn with_channel(self, name: Seq<char>, channel: ChannelView) -> QueueView {
        QueueView { channels: self.channels.insert(name, channel), ..self }
    }

    /// The queue can go on with what the store has answered for the channel.
    pub open spec fn accepts(
        self,
        name: Seq<char>,
        clock: u32,
        fetched: Option<Message>,
    ) -> bool {
        self.channels.contains_key(name) ==> self.channels[name].accepts(
            clock,
            self.time_to_live,
            fetched,
        )
    }

    /// The queue after a channel was created at `clock`, where the store's head is `head`.
    pub open spec fn after_create(self, name: Seq<char>, clock: u32, head: u64) -> QueueView {
        if self.channels.contains_key(name) {
            self
        } else {
            self.with_channel(name, ChannelView::starting(clock, head))
        }
    }

    /// The queue after a channel was deleted.
    pub open spec fn after_delete_channel(self, name: Seq<char>) -> QueueView {
        QueueView { channels: self.channels.remove(name), ..self }
    }

    /// The queue after a channel was asked for a message at `clock`, and the store answered
    /// `fetched` for the id that the channel wanted.
    pub open spec fn after_get(
        self,
        name: Seq<char>,
        clock: u32,
        fetched: Option<Message>,
    ) -> QueueView {
        if self.channels.contains_key(name) {
            self.with_channel(
                name,
                self.channels[name].after_get(clock, self.time_to_live, fetched),
            )
        } else {
            self
        }
    }

    /// The queue after an id was acknowledged on a channel at `clock`.
    pub open spec fn after_ack(self, name: Seq<char>, id: u64, clock: u32) -> QueueView {
        if self.channels.contains_key(name) {
            self.with_channel(name, self.channels[name].after_ack(id, clock))
        } else {
            self
        }
    }

    /// The queue after the store was emptied and begins at `tail`.
    pub open spec fn after_purge(self, tail: u64) -> QueueView {
        QueueView {
            channels: self.channels.map_values(|c: ChannelView| c.after_purge(tail)),
            ..self
        }
    }

    /// The queue after it was asked what to tell at `clock`.
    pub open spec fn after_info(self, clock: u32) -> QueueView {
        QueueView { channels: self.channels.map_values(|c: ChannelView| c.swept(clock)), ..self }
    }

    /// What a checkpoint keeps. Of a queue that is going away, no channel is kept.
    pub open spec fn record(self) -> CheckpointView {
        CheckpointView {
            state: self.state,
            channels: if self.state == QueueState::Ready {
                self.channels.map_values(|c: ChannelView| kept(c))
            } else {
                Map::empty()
            },
        }
    }

    /// The queue after it took back what a checkpoint kept.
    pub open spec fn recovered(self, record: CheckpointView) -> QueueView {
        QueueView {
            state: record.state,
            channels: if record.state == QueueState::Ready {
                self.channels.union_prefer_right(
                    record.channels.map_values(|c: ChannelCheckpoint| restored(c)),
                )
            } else {
                self.channels
            },
            ..self
        }
    }

    /// The queue after it was asked to recover: nothing happens where nothing could be read.
    pub open spec fn after_recover(self, stored: Option<QueueCheckpoint>) -> QueueView {
        match stored {
            Some(record) => self.recovered(record@),
            None => self,
        }
    }

    /// `tail` is the smallest of the channels' real tails, or 0 where there is no channel.
    pub open spec fn is_smallest_tail(self, tail: u64) -> bool {
        if self.channels.dom() == Set::<Seq<char>>::empty() {
            tail == 0
        } else {
            &&& exists|name: Seq<char>| #[trigger]
                self.channels.contains_key(name) && self.channels[name].real_tail() == tail
            &&& forall|name: Seq<char>| #[trigger]
                self.channels.contains_key(name) ==> tail <= self.channels[name].real_tail()
        }
    }
}

impl CheckpointPlan {
    /// The plan is a checkpoint of the queue: the store writes its own only while the queue is
    /// ready.
    pub open spec fn is_checkpoint_of(self, queue: QueueView, full: bool) -> bool {
        &&& self.record.channels.wf()
        &&& self.record@ == queue.record()
        &&& self.store == if queue.state == QueueState::Ready {
            Some(full)
        } else {
            None
        }
    }
}

/// A queue.
#[derive(Debug)]
pub struct Queue {
    config: QueueConfig,
    channels: NameMap<Channel>,
    state: QueueState,
}

impl View for Queue {
    type V = QueueView;

    closed spec fn view(&self) -> QueueView {
        QueueView {
            name: self.config.name@,
            time_to_live: self.config.time_to_live,
            state: self.state,
            channels: self.channels@.map_values(|c: Channel| c@),
        }
    }
}

impl Queue {
    /// The channels stand in the order of their names, and each is well-formed.
    pub closed spec fn wf(&self) -> bool {
        &&& self.channels.wf()
        &&& forall|name: Seq<char>| #[trigger]
            self.channels@.contains_key(name) ==> self.channels@[name].wf()
    }

    /// Each channel of a well-formed queue is in order.
    pub proof fn lemma_wf(&self, name: Seq<char>)
        requires
            self.wf(),
            self@.channels.contains_key(name),
        ensures
            self@.channels[name].wf(),
    {
        assert(self.channels@.contains_key(name));
        self.channels@[name].lemma_wf();
    }

    /// A queue, with what is to be written for it. A queue that is to `recover` takes back
    /// what is `stored`, where anything could be read, and nothing is to be written; any other
    /// begins empty, and its checkpoint is to be written.
    pub fn new(config: QueueConfig, recover: bool, stored: Option<QueueCheckpoint>) -> (made: (
        Queue,
        Option<CheckpointPlan>,
    ))
        requires
            stored matches Some(record) ==> record.channels.wf(),
        ensures
            made.0.wf(),
            recover ==> made.0@ == QueueView::empty(
                config.name@,
                config.time_to_live,
            ).after_recover(stored),
            !recover ==> made.0@ == QueueView::empty(config.name@, config.time_to_live),
            made.1 is Some <==> !recover,
            made.1 matches Some(plan) ==> plan.is_checkpoint_of(made.0@, false),
    {
        let mut queue = Queue { config, channels: NameMap::new(), state: QueueState::Ready };
        assert(queue@.channels =~= Map::<Seq<char>, ChannelView>::empty());
        if recover {
            queue.recover(stored);
            (queue, None)
        } else {
            let plan = queue.checkpoint(false);
            (queue, Some(plan))
        }
    }

    /// The name of the queue.
    pub fn name(&self) -> (name: &str)
        ensures
            name@ == self@.name,
    {
        self.config.name.as_str()
    }

    /// Moves the queue to a state. A queue that is going away stays so.
    pub fn set_state(&mut self, new_state: QueueState)
        requires
            old(self).wf(),
            old(self)@.state == QueueState::Deleting ==> new_state == QueueState::Deleting,
        ensures
            final(self).wf(),
            final(self)@ == (QueueView { state: new_state, ..old(self)@ }),
    {
        if self.state == new_state {
            return;
        }
        self.state = new_state;
    }

    /// Takes back what a checkpoint kept, if it could be read.
    pub fn recover(&mut self, stored: Option<QueueCheckpoint>)
        requires
            old(self).wf(),
            stored matches Some(record) ==> record.channels.wf(),
        ensures
            final(self).wf(),
            final(self)@ == old(self)@.after_recover(stored),
            stored is None ==> final(self)@ == old(self)@,
            stored matches Some(record) ==> final(self)@.state == record.state && (record.state
                == QueueState::Ready ==> forall|name: Seq<char>| #[trigger]
                record.channels@.contains_key(name) ==> {
                    &&& final(self)@.channels.contains_key(name)
                    &&& final(self)@.channels[name].last_touched
                        == record.channels@[name].last_touched
                    &&& final(self)@.channels[name].tail == record.channels@[name].tail
                    &&& final(self)@.channels[name].in_flight.len() == 0
                }),
    {
        let record = match stored {
            Some(record) => record,
            None => {
                return;
            },
        };
        self.state = record.state;
        match self.state {
            QueueState::Ready => {
                let ghost names = record.channels.names();
                let ghost back = record@.channels.map_values(|c: ChannelCheckpoint| restored(c));
                let n = record.channels.len();
                let mut i: usize = 0;
                assert(self@.channels =~= old(self)@.channels.union_prefer_right(
                    names::part(back, names, 0),
                ));
                while i < n
                    invariant
                        self.wf(),
                        record.channels.wf(),
                        names == record.channels.names(),
                        n == names.len(),
                        i <= n,
                        back == record@.channels.map_values(|c: ChannelCheckpoint| restored(c)),
                        self@ == (QueueView {
                            state: record.state,
                            channels: self@.channels,
                            ..old(self)@
                        }),
                        self@.channels == old(self)@.channels.union_prefer_right(
                            names::part(back, names, i as int),
                        ),
                    decreases n - i,
                {
                    let ghost before = self@.channels;
                    let kept = record.channels.value_at(i);
                    let name = record.channels.name_at(i);
                    let channel = Channel::new(kept.last_touched, kept.tail);
                    let ghost view = channel@;
                    self.channels.insert(name.clone(), channel);
                    proof {
                        names::lemma_part(back, names, i as int);
                        assert(self@.channels =~= before.insert(name@, view));
                        assert(self@.channels =~= old(self)@.channels.union_prefer_right(
                            names::part(back, names, i + 1),
                        ));
                    }
                    i = i + 1;
                }
                proof {
                    assert(back.dom() =~= record.channels@.dom());
                    record.channels.lemma_part_all(back);
                }
            },
            QueueState::Deleting => {},
        }
    }

    /// What a checkpoint of the queue asks of the outside.
    pub fn checkpoint(&self, full: bool) -> (plan: CheckpointPlan)
        requires
            self.wf(),
        ensures
            plan.is_checkpoint_of(self@, full),
    {
        let mut record = QueueCheckpoint { state: self.state, channels: NameMap::new() };
        let mut store: Option<bool> = None;
        if self.state == QueueState::Ready {
            store = Some(full);
            let ghost names = self.channels.names();
            let ghost all = self@.channels.map_values(|c: ChannelView| kept(c));
            let n = self.channels.len();
            let mut i: usize = 0;
            assert(record@.channels =~= names::part(all, names, 0));
            while i < n
                invariant
                    self.wf(),
                    record.channels.wf(),
                    record.state == self.state,
                    names == self.channels.names(),
                    n == names.len(),
                    i <= n,
                    all == self@.channels.map_values(|c: ChannelView| kept(c)),
                    record@.channels == names::part(all, names, i as int),
                decreases n - i,
            {
                let name = self.channels.name_at(i);
                let channel = self.channels.value_at(i);
                proof {
                    names::lemma_part(all, names, i as int);
                }
                record.channels.insert(
                    name.clone(),
                    ChannelCheckpoint {
                        last_touched: channel.last_touched(),
                        tail: channel.real_tail(),
                    },
                );
                i = i + 1;
            }
            proof {
                assert(all.dom() =~= self.channels@.dom());
                self.channels.lemma_part_all(all);
            }
        }
        CheckpointPlan { store, record }
    }

    /// Adds a channel that reads what is pushed from now on, unless there is one of that name.
    /// `head` is the id that the store gives to the next message.
    pub fn create_channel(&mut self, channel_name: &str, clock: u32, head: u64) -> (created: bool)
        requires
            old(self).wf(),
        ensures
            final(self).wf(),
            final(self)@ == old(self)@.after_create(channel_name@, clock, head),
            final(self)@.channels.contains_key(channel_name@),
            created == !old(self)@.channels.contains_key(channel_name@),
    {
        if self.channels.get(channel_name).is_some() {
            false
        } else {
            self.channels.insert(channel_name.to_owned(), Channel::new(clock, head));
            assert(self@.channels =~= old(self)@.after_create(channel_name@, clock, head).channels);
            true
        }
    }

    /// Takes a channel away, if there is one of that name.
    pub fn delete_channel(&mut self, channel_name: &str) -> (deleted: bool)
        requires
            old(self).wf(),
        ensures
            final(self).wf(),
            final(self)@ == old(self)@.after_delete_channel(channel_name@),
            !final(self)@.channels.contains_key(channel_name@),
            deleted == old(self)@.channels.contains_key(channel_name@),
    {
        let deleted = self.channels.remove(channel_name).is_some();
        assert(self@.channels =~= old(self)@.after_delete_channel(channel_name@).channels);
        deleted
    }

    /// The id that a channel wants from the store at `clock`, if there is a channel of that
    /// name.
    pub fn wanted(&self, channel_name: &str, clock: u32) -> (id: Option<u64>)
        requires
            self.wf(),
        ensures
            id is Some <==> self@.channels.contains_key(channel_name@),
            id matches Some(wanted) ==> wanted == self@.channels[channel_name@].wanted(clock),
    {
        match self.channels.get(channel_name) {
            Some(channel) => Some(channel.wanted(clock)),
            None => None,
        }
    }

    /// Whether [`Queue::get`] can go on with what the store has answered.
    pub fn accepts(&self, channel_name: &str, clock: u32, fetched: &Option<Message>) -> (ok: bool)
        requires
            self.wf(),
        ensures
            ok == self@.accepts(channel_name@, clock, *fetched),
    {
        match self.channels.get(channel_name) {
            Some(channel) => channel.accepts(clock, self.config.time_to_live, fetched),
            None => true,
        }
    }

    /// Hands out a message to a channel, if there is a channel of that name: the oldest one
    /// that is past its deadline, or else the next one. Where the store has no next one, the id
    /// that it would have comes back. `fetched` is what the store answers for
    /// [`Queue::wanted`].
    pub fn get(&mut self, channel_name: &str, clock: u32, fetched: Option<Message>) -> (answer:
        Option<Result<Message, u64>>)
        requires
            old(self).wf(),
            old(self)@.accepts(channel_name@, clock, fetched),
        ensures
            final(self).wf(),
            final(self)@ == old(self)@.after_get(channel_name@, clock, fetched),
            answer is Some <==> old(self)@.channels.contains_key(channel_name@),
            answer matches Some(result) ==> result
                == old(self)@.channels[channel_name@].answer(fetched),
    {
        let time_to_live = self.config.time_to_live;
        let answer = match self.channels.get_mut(channel_name) {
            Some(channel) => Some(channel.get(clock, time_to_live, fetched)),
            None => None,
        };
        assert(self@.channels =~= old(self)@.after_get(channel_name@, clock, fetched).channels);
        answer
    }

    /// What to do next when `count` messages are pushed and the first of them brought
    /// `results`. What the last one brings is what the whole call returns.
    pub fn push_many(count: usize, results: &Vec<Option<u64>>) -> (step: PushStep)
        requires
            count > 0,
            results@.len() <= count,
        ensures
            results@.len() < count ==> step == PushStep::Push(results@.len() as usize),
            results@.len() == count ==> step == PushStep::Done(results@.last()),
    {
        if results.len() < count {
            PushStep::Push(results.len())
        } else {
            PushStep::Done(results[count - 1])
        }
    }

    /// Acknowledges a message on a channel, if there is a channel of that name. That it is done
    /// comes back only where the message is in flight and its deadline is not past.
    pub fn ack(&mut self, channel_name: &str, id: u64, clock: u32) -> (done: Option<bool>)
        requires
            old(self).wf(),
        ensures
            final(self).wf(),
            final(self)@ == old(self)@.after_ack(channel_name@, id, clock),
            done is Some <==> old(self)@.channels.contains_key(channel_name@),
            done matches Some(b) ==> b == old(self)@.channels[channel_name@].can_ack(id, clock),
    {
        let done = match self.channels.get_mut(channel_name) {
            Some(channel) => Some(channel.ack(id, clock)),
            None => None,
        };
        assert(self@.channels =~= old(self)@.after_ack(channel_name@, id, clock).channels);
        done
    }

    /// Follows the store, which was emptied and begins at `tail`: the channels forget what is
    /// in flight and read from there. What is to be written then comes back.
    pub fn purge(&mut self, tail: u64) -> (plan: CheckpointPlan)
        requires
            old(self).wf(),
        ensures
            final(self).wf(),
            final(self)@ == old(self)@.after_purge(tail),
            plan.is_checkpoint_of(final(self)@, false),
    {
        let ghost names = self.channels.names();
        let ghost all = old(self)@.channels.map_values(|c: ChannelView| c.after_purge(tail));
        let n = self.channels.len();
        let mut i: usize = 0;
        assert(self@.channels =~= old(self)@.channels.union_prefer_right(
            names::part(all, names, 0),
        ));
        while i < n
            invariant
                self.wf(),
                names == self.channels.names(),
                n == names.len(),
                i <= n,
                all == old(self)@.channels.map_values(|c: ChannelView| c.after_purge(tail)),
                self@ == (QueueView { channels: self@.channels, ..old(self)@ }),
                self@.channels == old(self)@.channels.union_prefer_right(
                    names::part(all, names, i as int),
                ),
                self@.channels.dom() == old(self)@.channels.dom(),
            decreases n - i,
        {
            let ghost before = self@.channels;
            proof {
                names::lemma_part(all, names, i as int);
                self.channels.lemma_part_before(all, i as int);
                self.channels.lemma_at(i as int);
                assert(before.contains_key(names[i as int]));
                assert(before[names[i as int]] == old(self)@.channels[names[i as int]]);
            }
            self.channels.value_at_mut(i).purge(tail);
            proof {
                assert(self@.channels =~= before.insert(names[i as int], all[names[i as int]]));
                assert(self@.channels =~= old(self)@.channels.union_prefer_right(
                    names::part(all, names, i + 1),
                ));
            }
            i = i + 1;
        }
        proof {
            assert(all.dom() =~= self.channels@.dom());
            self.channels.lemma_part_all(all);
            assert(self@.channels =~= all);
        }
        self.checkpoint(false)
    }

    /// What is told of the queue at `clock`, where the store has the messages from `tail` up to
    /// `head`.
    pub fn info(&mut self, clock: u32, tail: u64, head: u64) -> (info: QueueInfo)
        requires
            old(self).wf(),
        ensures
            final(self).wf(),
            final(self)@ == old(self)@.after_info(clock),
            info.tail == tail,
            info.head == head,
            info.channels.wf(),
            info.channels@ == old(self)@.channels.map_values(|c: ChannelView| told(c, clock)),
            forall|name: Seq<char>| #[trigger]
                info.channels@.contains_key(name) ==> {
                    &&& info.channels@[name].tail == old(self)@.channels[name].tail
                    &&& info.channels@[name].last_touched
                        == old(self)@.channels[name].last_touched
                },
    {
        let mut info = QueueInfo { head, tail, channels: NameMap::new() };
        let ghost names = self.channels.names();
        let ghost swept = old(self)@.channels.map_values(|c: ChannelView| c.swept(clock));
        let ghost all = old(self)@.channels.map_values(|c: ChannelView| told(c, clock));
        let n = self.channels.len();
        let mut i: usize = 0;
        assert(self@.channels =~= old(self)@.channels.union_prefer_right(
            names::part(swept, names, 0),
        ));
        assert(info.channels@ =~= names::part(all, names, 0));
        while i < n
            invariant
                self.wf(),
                info.channels.wf(),
                info.head == head,
                info.tail == tail,
                names == self.channels.names(),
                n == names.len(),
                i <= n,
                swept == old(self)@.channels.map_values(|c: ChannelView| c.swept(clock)),
                all == old(self)@.channels.map_values(|c: ChannelView| told(c, clock)),
                info.channels@ == names::part(all, names, i as int),
                self@ == (QueueView { channels: self@.channels, ..old(self)@ }),
                self@.channels == old(self)@.channels.union_prefer_right(
                    names::part(swept, names, i as int),
                ),
                self@.channels.dom() == old(self)@.channels.dom(),
            decreases n - i,
        {
            let ghost before = self@.channels;
            proof {
                names::lemma_part(all, names, i as int);
                names::lemma_part(swept, names, i as int);
                self.channels.lemma_part_before(swept, i as int);
                self.channels.lemma_at(i as int);
                assert(before.contains_key(names[i as int]));
                assert(before[names[i as int]] == old(self)@.channels[names[i as int]]);
            }
            let name = self.channels.name_at(i).clone();
            let channel = self.channels.value_at_mut(i);
            let told_of = ChannelInfo {
                last_touched: channel.last_touched(),
                in_flight_count: channel.in_flight_count(clock),
                tail: channel.tail(),
            };
            info.channels.insert(name, told_of);
            proof {
                assert(self@.channels =~= before.insert(names[i as int], swept[names[i as int]]));
                assert(self@.channels =~= old(self)@.channels.union_prefer_right(
                    names::part(swept, names, i + 1),
                ));
            }
            i = i + 1;
        }
        proof {
            assert(all.dom() =~= self.channels@.dom());
            assert(swept.dom() =~= self.channels@.dom());
            self.channels.lemma_part_all(all);
            self.channels.lemma_part_all(swept);
            assert(self@.channels =~= swept);
        }
        info
    }

    /// Sends the queue away. What is to be written comes back; the store and all that is kept
    /// of the queue can be removed then.
    pub fn delete(&mut self) -> (plan: CheckpointPlan)
        requires
            old(self).wf(),
        ensures
            final(self).wf(),
            final(self)@ == (QueueView { state: QueueState::Deleting, ..old(self)@ }),
            plan.is_checkpoint_of(final(self)@, false),
    {
        self.set_state(QueueState::Deleting);
        self.checkpoint(false)
    }

    /// What maintenance asks of the outside: to let go of the messages that no channel needs
    /// any more, and to write a checkpoint.
    pub fn maintenance(&self) -> (plan: MaintenancePlan)
        requires
            self.wf(),
        ensures
            self@.is_smallest_tail(plan.smallest_tail),
            plan.checkpoint.is_checkpoint_of(self@, false),
    {
        let ghost names = self.channels.names();
        let n = self.channels.len();
        let mut smallest_tail: u64 = 0;
        let mut i: usize = 0;
        while i < n
            invariant
                self.wf(),
                names == self.channels.names(),
                n == names.len(),
                i <= n,
                i == 0 ==> smallest_tail == 0,
                i > 0 ==> exists|j: int|
                    0 <= j < i && self@.channels[#[trigger] names[j]].real_tail() == smallest_tail,
                forall|j: int|
                    0 <= j < i ==> smallest_tail <= self@.channels[#[trigger] names[j]].real_tail(),
            decreases n - i,
        {
            proof {
                self.channels.lemma_at(i as int);
            }
            let tail = self.channels.value_at(i).real_tail();
            proof {
                assert(self@.channels[names[i as int]].real_tail() == tail);
            }
            if i == 0 || tail < smallest_tail {
                smallest_tail = tail;
            }
            i = i + 1;
        }
        proof {
            if n == 0 {
                assert(self@.channels.dom() =~= Set::<Seq<char>>::empty());
            } else {
                let j = choose|j: int|
                    0 <= j < n && self@.channels[#[trigger] names[j]].real_tail() == smallest_tail;
                self.channels.lemma_at(j);
                assert(self@.channels.contains_key(names[j]));
                assert forall|name: Seq<char>| #[trigger]
                    self@.channels.contains_key(name) implies smallest_tail
                    <= self@.channels[name].real_tail() by {
                    assert(self.channels@.contains_key(name));
                    let k = names.index_of(name);
                    assert(names[k] == name);
                }
            }
        }
        let checkpoint = self.checkpoint(false);
        MaintenancePlan { smallest_tail, checkpoint }
    }

    /// What is to be written when the queue is let go of: its checkpoint in full, unless the
    /// queue is going away.
    pub fn close(&self) -> (plan: Option<CheckpointPlan>)
        requires
            self.wf(),
        ensures
            plan is None <==> self@.state == QueueState::Deleting,
            plan matches Some(p) ==> p.is_checkpoint_of(self@, true),
    {
        if self.state != QueueState::Deleting {
            Some(self.checkpoint(true))
        } else {
            None
        }
    }
}

} // verus!
