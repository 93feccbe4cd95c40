//! The queue together with a store of numbered messages in memory.

use channel_queue::message::Message;
use channel_queue::queue::{
    CheckpointPlan, PushStep, Queue, QueueCheckpoint, QueueConfig, QueueInfo, QueueState,
};

const SEGMENT_SIZE: usize = 4 * 1024 * 1024;

/// A run of messages; the ids go from `tail` up.
struct Segment {
    tail: u64,
    size: usize,
    bodies: Vec<Vec<u8>>,
}

/// A store that keeps its messages in segments of a limited size.
struct Store {
    segments: Vec<Segment>,
}

impl Store {
    fn new() -> Store {
        Store {
            segments: vec![Segment { tail: 0, size: 0, bodies: Vec::new() }],
        }
    }

    fn segments_count(&self) -> usize {
        self.segments.len()
    }

    fn tail(&self) -> u64 {
        self.segments[0].tail
    }

    fn head(&self) -> u64 {
        let last = self.segments.last().unwrap();
        last.tail + last.bodies.len() as u64
    }

    fn push(&mut self, message: &[u8]) -> Option<u64> {
        let id = self.head();
        if self.segments.last().unwrap().size + message.len() > SEGMENT_SIZE {
            self.segments.push(Segment { tail: id, size: 0, bodies: Vec::new() });
        }
        let last = self.segments.last_mut().unwrap();
        last.size += message.len();
        last.bodies.push(message.to_vec());
        Some(id)
    }

    fn get(&self, id: u64) -> Option<Message> {
        for segment in &self.segments {
            let end = segment.tail + segment.bodies.len() as u64;
            if segment.tail <= id && id < end {
                let body = segment.bodies[(id - segment.tail) as usize].clone();
                return Some(Message { id, body });
            }
        }
        None
    }

    fn gc(&mut self, smallest_tail: u64) {
        while self.segments.len() > 1 && self.segments[1].tail <= smallest_tail {
            self.segments.remove(0);
        }
    }

    fn purge(&mut self) {
        let head = self.head();
        self.segments = vec![Segment { tail: head, size: 0, bodies: Vec::new() }];
    }
}

/// A queue with its store, and the checkpoint that was written last.
struct Harness {
    queue: Queue,
    store: Store,
    written: Option<QueueCheckpoint>,
    store_checkpoints: Vec<bool>,
}

fn config() -> QueueConfig {
    QueueConfig { name: "queue".to_string(), time_to_live: 1 }
}

fn get_queue() -> Harness {
    let (queue, plan) = Queue::new(config(), false, None);
    let mut harness = Harness {
        queue,
        store: Store::new(),
        written: None,
        store_checkpoints: Vec::new(),
    };
    harness.write(plan.unwrap());
    harness
}

fn get_queue_recover(from: Harness) -> Harness {
    let (queue, plan) = Queue::new(config(), true, from.written);
    assert!(plan.is_none());
    Harness { queue, store: from.store, written: None, store_checkpoints: Vec::new() }
}

impl Harness {
    fn write(&mut self, plan: CheckpointPlan) {
        if let Some(full) = plan.store {
            self.store_checkpoints.push(full);
        }
        self.written = Some(plan.record);
    }

    fn create_channel(&mut self, name: &str, clock: u32) -> bool {
        self.queue.create_channel(name, clock, self.store.head())
    }

    fn push(&mut self, message: &[u8], _clock: u32) -> Option<u64> {
        self.push_many(&[message])
    }

    fn push_many(&mut self, messages: &[&[u8]]) -> Option<u64> {
        let mut results = Vec::new();
        loop {
            match Queue::push_many(messages.len(), &results) {
                PushStep::Push(i) => results.push(self.store.push(messages[i])),
                PushStep::Done(result) => return result,
            }
        }
    }

    fn get(&mut self, name: &str, clock: u32) -> Option<Result<Message, u64>> {
        let id = self.queue.wanted(name, clock)?;
        let fetched = self.store.get(id);
        assert!(self.queue.accepts(name, clock, &fetched));
        self.queue.get(name, clock, fetched)
    }

    fn ack(&mut self, name: &str, id: u64, clock: u32) -> Option<bool> {
        self.queue.ack(name, id, clock)
    }

    fn info(&mut self, clock: u32) -> QueueInfo {
        self.queue.info(clock, self.store.tail(), self.store.head())
    }

    fn checkpoint(&mut self, full: bool) {
        let plan = self.queue.checkpoint(full);
        self.write(plan);
    }

    fn purge(&mut self) {
        self.store.purge();
        let plan = self.queue.purge(self.store.tail());
        self.write(plan);
    }

    fn maintenance(&mut self) -> u64 {
        let plan = self.queue.maintenance();
        self.store.gc(plan.smallest_tail);
        self.write(plan.checkpoint);
        plan.smallest_tail
    }

    fn delete(&mut self) {
        let plan = self.queue.delete();
        self.write(plan);
    }
}

fn gen_message() -> &'static [u8] {
    b"333333333333333333333333333333333333333333333333333333333333333333333333333333333333333333333333"
}

#[test]
fn test_fill() {
    let mut q = get_queue();
    let message = gen_message();
    for _ in 0..100_000 {
        let r = q.push(&message, 0);
        assert!(r.is_some());
    }
}

#[test]
fn test_put_get() {
    let mut q = get_queue();
    let message = gen_message();
    assert!(q.create_channel("test", 0));
    for _ in 0..100_000 {
        assert!(q.push(&message, 0).is_some());
        let m = q.get("test", 0);
        assert!(m.unwrap().unwrap().body() == message);
    }
}

#[test]
fn test_create_channel() {
    let mut q = get_queue();
    let message = gen_message();
    assert!(q.get("test", 0).is_none());
    assert!(q.push(&message, 0).is_some());
    assert!(q.create_channel("test", 0) == true);
    assert!(q.get("test", 0).is_some());
}

#[test]
fn test_in_flight() {
    let mut q = get_queue();
    assert!(q.create_channel("test", 0) == true);
    let message = gen_message();
    assert!(q.push(&message, 1).is_some());
    assert!(q.get("test", 1).unwrap().is_ok());
    assert!(q.get("test", 1).unwrap().is_err());
    assert_eq!(q.info(1).channels.get("test").unwrap().in_flight_count, 1);
    assert_eq!(q.info(2).channels.get("test").unwrap().in_flight_count, 0);
}

#[test]
fn test_in_flight_timeout() {
    let mut q = get_queue();
    let message = gen_message();
    assert!(q.create_channel("test", 0) == true);
    assert!(q.push(&message, 0).is_some());
    assert!(q.get("test", 0).unwrap().is_ok());
    assert!(q.get("test", 0).unwrap().is_err());
    assert!(q.get("test", 1).unwrap().is_ok());
}

#[test]
fn test_backend_recover() {
    let mut q = get_queue();
    assert!(q.create_channel("test", 0) == true);
    let message = gen_message();
    let mut put_msg_count = 0;
    while q.store.segments_count() < 3 {
        assert!(q.push(&message, 0).is_some());
        put_msg_count += 1;
    }
    q.checkpoint(true);

    q = get_queue_recover(q);
    assert!(q.create_channel("test", 1) == false);
    assert_eq!(q.store.segments_count(), 3);
    let mut get_msg_count = 0;
    while let Some(Ok(_)) = q.get("test", 0) {
        get_msg_count += 1;
    }
    assert_eq!(get_msg_count, put_msg_count);
}

#[test]
fn test_queue_recover() {
    let mut q = get_queue();
    let message = gen_message();
    assert!(q.create_channel("test", 0) == true);
    assert!(q.push(&message, 0).is_some());
    assert!(q.push(&message, 0).is_some());
    assert!(q.get("test", 0).unwrap().is_ok());
    assert!(q.get("test", 0).unwrap().is_ok());
    assert!(q.get("test", 0).unwrap().is_err());
    q.checkpoint(true);

    q = get_queue_recover(q);
    assert!(q.create_channel("test", 0) == false);
    assert!(q.get("test", 0).unwrap().is_ok());
    assert!(q.get("test", 0).unwrap().is_ok());
    assert!(q.get("test", 0).unwrap().is_err());
}

#[test]
fn test_gc() {
    let message = gen_message();
    let mut q = get_queue();
    assert!(q.create_channel("test", 0) == true);

    while q.store.segments_count() < 3 {
        assert!(q.push(&message, 0).is_some());
        let get_result = q.get("test", 0);
        assert!(get_result.as_ref().unwrap().is_ok());
        assert!(q.ack("test", get_result.unwrap().unwrap().id(), 0).unwrap());
    }
    q.maintenance();

    // gc should get rid of the first two segments
    assert_eq!(q.store.segments_count(), 1);
}

#[test]
fn name_is_that_of_the_config() {
    let q = get_queue();
    assert_eq!(q.queue.name(), "queue");
}

#[test]
fn new_queue_is_checkpointed_at_once() {
    let q = get_queue();
    assert_eq!(q.store_checkpoints, vec![false]);
    let record = q.written.unwrap();
    assert_eq!(record.state, QueueState::Ready);
    assert_eq!(record.channels.len(), 0);
}

#[test]
fn default_state_is_ready() {
    assert_eq!(QueueState::default(), QueueState::Ready);
}

#[test]
fn unknown_channels_answer_none() {
    let mut q = get_queue();
    assert!(q.queue.wanted("a", 0).is_none());
    assert!(q.queue.accepts("a", 0, &None));
    assert!(q.queue.get("a", 0, None).is_none());
    assert!(q.ack("a", 0, 0).is_none());
    assert!(!q.queue.delete_channel("a"));
}

#[test]
fn channel_is_created_once_and_deleted_once() {
    let mut q = get_queue();
    assert!(q.create_channel("a", 3));
    assert!(!q.create_channel("a", 4));
    assert_eq!(q.info(4).channels.get("a").unwrap().last_touched, 3);
    assert!(q.queue.delete_channel("a"));
    assert!(!q.queue.delete_channel("a"));
    assert!(q.get("a", 4).is_none());
}

#[test]
fn new_channel_reads_from_the_head() {
    let mut q = get_queue();
    q.push(b"old", 0);
    assert!(q.create_channel("a", 0));
    assert_eq!(q.get("a", 0).unwrap().unwrap_err(), 1);
    q.push(b"new", 0);
    let message = q.get("a", 0).unwrap().unwrap();
    assert_eq!(message.id(), 1);
    assert_eq!(message.body(), b"new");
}

#[test]
fn messages_come_in_order_to_each_channel() {
    let mut q = get_queue();
    q.create_channel("a", 0);
    q.create_channel("b", 0);
    for i in 0..50u8 {
        q.push(&[i], 0);
    }
    for i in 0..50u8 {
        assert_eq!(q.get("a", 0).unwrap().unwrap().body(), [i]);
    }
    assert_eq!(q.get("b", 0).unwrap().unwrap().body(), [0]);
    assert_eq!(q.info(0).channels.get("b").unwrap().tail, 1);
    assert_eq!(q.info(0).channels.get("a").unwrap().tail, 50);
}

#[test]
fn timed_out_messages_come_again_the_oldest_first() {
    let mut q = get_queue();
    q.create_channel("a", 0);
    for i in 0..4u8 {
        q.push(&[i], 0);
    }
    for i in 0..3u64 {
        assert_eq!(q.get("a", 0).unwrap().unwrap().id(), i);
    }
    for i in 0..3u64 {
        assert_eq!(q.queue.wanted("a", 5), Some(i));
        assert_eq!(q.get("a", 5).unwrap().unwrap().id(), i);
    }
    assert_eq!(q.get("a", 5).unwrap().unwrap().id(), 3);
    assert_eq!(q.get("a", 5).unwrap().unwrap_err(), 4);
}

#[test]
fn marked_messages_come_again_too() {
    let mut q = get_queue();
    q.create_channel("a", 0);
    for _ in 0..3 {
        q.push(b"m", 0);
    }
    q.get("a", 0).unwrap().unwrap();
    q.get("a", 0).unwrap().unwrap();
    q.get("a", 0).unwrap().unwrap();
    assert_eq!(q.info(0).channels.get("a").unwrap().in_flight_count, 3);
    assert_eq!(q.info(1).channels.get("a").unwrap().in_flight_count, 0);
    assert_eq!(q.info(1).channels.get("a").unwrap().in_flight_count, 0);
    assert_eq!(q.get("a", 1).unwrap().unwrap().id(), 0);
    assert_eq!(q.info(1).channels.get("a").unwrap().in_flight_count, 1);
    assert_eq!(q.get("a", 1).unwrap().unwrap().id(), 1);
    assert_eq!(q.info(1).channels.get("a").unwrap().in_flight_count, 2);
}

#[test]
fn counting_stops_at_the_first_deadline_that_is_not_past() {
    let mut q = get_queue();
    q.create_channel("a", 0);
    q.push(b"m", 0);
    q.push(b"n", 0);
    // the clock goes back: the deadlines are 6 and 1
    q.get("a", 5).unwrap().unwrap();
    q.get("a", 0).unwrap().unwrap();
    assert_eq!(q.info(1).channels.get("a").unwrap().in_flight_count, 2);
    assert_eq!(q.info(6).channels.get("a").unwrap().in_flight_count, 0);
}

#[test]
fn ack_works_once_and_before_the_deadline() {
    let mut q = get_queue();
    q.create_channel("a", 0);
    q.push(b"m", 0);
    q.push(b"n", 0);
    assert_eq!(q.ack("a", 0, 0), Some(false));
    assert_eq!(q.get("a", 0).unwrap().unwrap().id(), 0);
    assert_eq!(q.ack("a", 0, 0), Some(true));
    assert_eq!(q.ack("a", 0, 0), Some(false));
    assert_eq!(q.get("a", 0).unwrap().unwrap().id(), 1);
    assert_eq!(q.ack("a", 1, 1), Some(false));
    assert_eq!(q.get("a", 1).unwrap().unwrap().id(), 1);
    assert_eq!(q.ack("a", 1, 1), Some(true));
    assert_eq!(q.get("a", 9).unwrap().unwrap_err(), 2);
}

#[test]
fn marked_message_cannot_be_acknowledged() {
    let mut q = get_queue();
    q.create_channel("a", 0);
    q.push(b"m", 0);
    q.get("a", 0).unwrap().unwrap();
    q.info(1);
    assert_eq!(q.ack("a", 0, 0), Some(false));
}

#[test]
fn smallest_tail_is_the_oldest_message_not_acknowledged() {
    let mut q = get_queue();
    assert_eq!(q.maintenance(), 0);
    q.create_channel("a", 0);
    for _ in 0..5 {
        q.push(b"m", 0);
    }
    for _ in 0..5 {
        q.get("a", 0).unwrap().unwrap();
    }
    assert_eq!(q.maintenance(), 0);
    assert_eq!(q.ack("a", 2, 0), Some(true));
    assert_eq!(q.maintenance(), 0);
    assert_eq!(q.ack("a", 0, 0), Some(true));
    assert_eq!(q.maintenance(), 1);
    assert_eq!(q.ack("a", 1, 0), Some(true));
    assert_eq!(q.maintenance(), 3);
    assert_eq!(q.ack("a", 4, 0), Some(true));
    assert_eq!(q.maintenance(), 3);
    assert_eq!(q.ack("a", 3, 0), Some(true));
    assert_eq!(q.maintenance(), 5);
    assert!(q.create_channel("b", 0));
    q.push(b"m", 0);
    q.get("a", 0).unwrap().unwrap();
    q.ack("a", 5, 0);
    assert_eq!(q.maintenance(), 5);
}

#[test]
fn unacknowledged_messages_come_back_after_recovery() {
    let mut q = get_queue();
    q.create_channel("a", 0);
    for i in 0..4u8 {
        q.push(&[i], 0);
    }
    for _ in 0..4 {
        q.get("a", 7).unwrap().unwrap();
    }
    assert_eq!(q.ack("a", 0, 7), Some(true));
    assert_eq!(q.ack("a", 2, 7), Some(true));
    q.checkpoint(true);
    assert_eq!(q.store_checkpoints.last(), Some(&true));
    let kept = *q.written.as_ref().unwrap().channels.get("a").unwrap();
    assert_eq!((kept.last_touched, kept.tail), (7, 1));

    q = get_queue_recover(q);
    assert_eq!(q.info(0).channels.get("a").unwrap().in_flight_count, 0);
    assert_eq!(q.info(0).channels.get("a").unwrap().last_touched, 7);
    for i in 1..4u64 {
        assert_eq!(q.get("a", 0).unwrap().unwrap().id(), i);
    }
    assert_eq!(q.get("a", 0).unwrap().unwrap_err(), 4);
}

#[test]
fn recovering_from_nothing_gives_an_empty_queue() {
    let (mut queue, plan) = Queue::new(config(), true, None);
    assert!(plan.is_none());
    assert_eq!(queue.checkpoint(false).record.state, QueueState::Ready);
    assert_eq!(queue.info(0, 0, 0).channels.len(), 0);
}

#[test]
fn checkpoint_round_trip_keeps_the_record() {
    let mut q = get_queue();
    for name in ["b", "a", "c"] {
        assert!(q.create_channel(name, 2));
        q.push(b"m", 0);
    }
    q.checkpoint(false);
    let back = get_queue_recover(q);
    let record = back.queue.checkpoint(false).record;
    assert_eq!(record.channels.len(), 3);
    for (i, (name, tail)) in [("a", 1), ("b", 0), ("c", 2)].iter().enumerate() {
        assert_eq!(record.channels.name_at(i), name);
        assert_eq!(record.channels.value_at(i).tail, *tail);
        assert_eq!(record.channels.value_at(i).last_touched, 2);
    }
}

#[test]
fn purge_forgets_what_is_in_flight_and_moves_the_real_tail() {
    let mut q = get_queue();
    q.create_channel("a", 0);
    for _ in 0..3 {
        q.push(b"m", 0);
    }
    q.get("a", 0).unwrap().unwrap();
    q.get("a", 0).unwrap().unwrap();
    q.purge();
    let info = q.info(0);
    assert_eq!((info.tail, info.head), (3, 3));
    assert_eq!(info.channels.get("a").unwrap().in_flight_count, 0);
    assert_eq!(info.channels.get("a").unwrap().tail, 3);
    assert_eq!(q.ack("a", 0, 0), Some(false));
    // nothing is in flight, so nothing holds the channel back
    assert_eq!(q.written.as_ref().unwrap().channels.get("a").unwrap().tail, 3);
    assert_eq!(q.maintenance(), 3);
    assert_eq!(q.get("a", 9).unwrap().unwrap_err(), 3);
    q.push(b"m", 0);
    assert_eq!(q.get("a", 9).unwrap().unwrap().id(), 3);
    assert_eq!(q.ack("a", 3, 9), Some(true));
    assert_eq!(q.maintenance(), 4);
}

#[test]
fn deleted_queue_keeps_no_channel() {
    let mut q = get_queue();
    q.create_channel("a", 0);
    let before = q.store_checkpoints.len();
    q.delete();
    assert_eq!(q.store_checkpoints.len(), before);
    assert_eq!(q.written.as_ref().unwrap().state, QueueState::Deleting);
    assert_eq!(q.written.as_ref().unwrap().channels.len(), 0);
    assert!(q.queue.close().is_none());
    q.queue.set_state(QueueState::Deleting);

    let back = get_queue_recover(q);
    assert_eq!(back.queue.checkpoint(false).record.state, QueueState::Deleting);
    assert!(back.queue.wanted("a", 0).is_none());
}

#[test]
fn queue_that_is_let_go_of_is_checkpointed_in_full() {
    let mut q = get_queue();
    q.create_channel("a", 0);
    let plan = q.queue.close().unwrap();
    assert_eq!(plan.store, Some(true));
    assert_eq!(plan.record.channels.len(), 1);
}

#[test]
fn recover_replaces_channels_of_the_same_name() {
    let mut first = get_queue();
    first.push(b"m", 0);
    first.create_channel("a", 1);
    let record = first.queue.checkpoint(false).record;
    let mut second = get_queue();
    second.create_channel("a", 0);
    second.create_channel("b", 0);
    second.queue.recover(Some(record));
    let info = second.info(0);
    assert_eq!(info.channels.len(), 2);
    assert_eq!(info.channels.get("a").unwrap().tail, 1);
    assert_eq!(info.channels.get("b").unwrap().tail, 0);
    second.queue.recover(None);
    assert_eq!(second.info(0).channels.len(), 2);
}

#[test]
fn several_pushes_return_the_last_result() {
    let mut q = get_queue();
    assert_eq!(q.push_many(&[b"a", b"b", b"c"]), Some(2));
    assert_eq!(q.push_many(&[b"d"]), Some(3));
    assert_eq!(q.store.get(1).unwrap().body(), b"b");
    assert_eq!(Queue::push_many(2, &vec![]), PushStep::Push(0));
    assert_eq!(Queue::push_many(2, &vec![None]), PushStep::Push(1));
    assert_eq!(Queue::push_many(2, &vec![None, Some(4)]), PushStep::Done(Some(4)));
    assert_eq!(Queue::push_many(2, &vec![Some(4), None]), PushStep::Done(None));
}

#[test]
fn get_is_refused_where_it_cannot_go_on() {
    let mut q = get_queue();
    q.create_channel("a", 0);
    let message = |id: u64| Some(Message { id, body: Vec::new() });
    // the deadline or the next tail would outgrow its type
    assert!(!q.queue.accepts("a", u32::MAX, &message(0)));
    assert!(q.queue.accepts("a", u32::MAX - 1, &message(0)));
    assert!(!q.queue.accepts("a", 0, &message(u64::MAX)));
    assert!(q.queue.accepts("a", 0, &message(u64::MAX - 1)));
    assert!(q.queue.accepts("a", u32::MAX, &None));
    // a message that is due again must be there
    q.push(b"m", 0);
    q.get("a", 0).unwrap().unwrap();
    assert!(q.queue.accepts("a", 0, &None));
    assert!(!q.queue.accepts("a", 1, &None));
    assert!(q.queue.accepts("a", 1, &message(0)));
}

#[test]
fn message_without_time_to_live_must_be_counted_first() {
    let config = QueueConfig { name: "q".to_string(), time_to_live: 0 };
    let (mut queue, _) = Queue::new(config, false, None);
    assert!(queue.create_channel("a", 0, 0));
    let message = || Some(Message { id: 0, body: Vec::new() });
    assert!(queue.get("a", 0, message()).unwrap().is_ok());
    assert!(!queue.accepts("a", 0, &message()));
    assert_eq!(queue.info(0, 0, 1).channels.get("a").unwrap().in_flight_count, 0);
    assert!(queue.accepts("a", 0, &message()));
    assert!(queue.get("a", 0, message()).unwrap().is_ok());
}

#[test]
fn message_that_the_store_repeats_moves_to_the_back() {
    let mut q = get_queue();
    q.create_channel("a", 0);
    let message = |id: u64| Some(Message { id, body: Vec::new() });
    q.queue.get("a", 0, message(4)).unwrap().unwrap();
    q.queue.get("a", 0, message(6)).unwrap().unwrap();
    assert_eq!(q.queue.wanted("a", 0), Some(7));
    q.queue.get("a", 0, message(4)).unwrap().unwrap();
    assert_eq!(q.queue.wanted("a", 0), Some(5));
    assert_eq!(q.info(0).channels.get("a").unwrap().in_flight_count, 2);
    assert_eq!(q.queue.wanted("a", 1), Some(6));
}

#[test]
fn message_in_flight_is_not_handed_out_before_its_deadline() {
    let config = QueueConfig { name: "q".to_string(), time_to_live: 3 };
    let (mut queue, _) = Queue::new(config, false, None);
    let message = || Some(Message { id: 0, body: vec![1] });
    assert!(queue.create_channel("a", 0, 0));
    assert!(queue.get("a", 2, message()).unwrap().is_ok());
    for clock in 2..5 {
        assert_eq!(queue.wanted("a", clock), Some(1));
    }
    assert_eq!(queue.wanted("a", 5), Some(0));
    assert_eq!(queue.get("a", 5, message()).unwrap().unwrap().body(), [1]);
    assert_eq!(queue.wanted("a", 7), Some(1));
    assert_eq!(queue.wanted("a", 8), Some(0));
}

#[test]
fn info_changes_no_later_answer() {
    let make = || {
        let mut q = get_queue();
        q.create_channel("a", 0);
        for clock in 0..5 {
            q.push(b"m", clock);
        }
        for id in 0..3 {
            let message = q.store.get(id);
            q.queue.get("a", 0, message).unwrap().unwrap();
        }
        q
    };
    let mut asked = make();
    let mut left = make();
    asked.info(1);
    for clock in 1..6 {
        assert_eq!(asked.queue.wanted("a", clock), left.queue.wanted("a", clock));
        let (x, y) = (asked.get("a", clock).unwrap(), left.get("a", clock).unwrap());
        assert_eq!(x.map(|m| m.id()), y.map(|m| m.id()));
        let (x, y) = (asked.info(clock), left.info(clock));
        assert_eq!(x.channels.get("a"), y.channels.get("a"));
        for id in [clock as u64, 9, 1] {
            assert_eq!(asked.ack("a", id, clock), left.ack("a", id, clock));
        }
        asked.info(clock);
        let (x, y) = (asked.queue.checkpoint(false), left.queue.checkpoint(false));
        assert_eq!(x.record.channels.get("a"), y.record.channels.get("a"));
    }
}

#[test]
fn unread_messages_come_back_after_recovery() {
    let mut q = get_queue();
    q.create_channel("a", 0);
    for i in 0..4u8 {
        q.push(&[i], 0);
    }
    q.get("a", 0).unwrap().unwrap();
    assert_eq!(q.ack("a", 0, 0), Some(true));
    q.get("a", 0).unwrap().unwrap();
    // message 1 expires, and messages 2 and 3 are not read
    q.info(5);
    q.checkpoint(true);
    q = get_queue_recover(q);
    for i in 1..4u8 {
        assert_eq!(q.get("a", 0).unwrap().unwrap().body(), [i]);
    }
    assert_eq!(q.get("a", 0).unwrap().unwrap_err(), 4);
}

#[test]
fn messages_come_back_where_ids_are_missing() {
    // the store has the messages 3, 7 and 8 only, and answers with the next one there is
    let store = |from: u64| {
        let id = [3, 7, 8].into_iter().find(|id| from <= *id)?;
        Some(Message { id, body: vec![id as u8] })
    };
    let (mut queue, _) = Queue::new(config(), false, None);
    queue.create_channel("a", 0, 2);
    for id in [3, 7] {
        let fetched = store(queue.wanted("a", 0).unwrap());
        assert_eq!(queue.get("a", 0, fetched).unwrap().unwrap().id(), id);
    }
    assert_eq!(queue.ack("a", 3, 0), Some(true));
    let record = queue.checkpoint(true).record;
    let (mut queue, _) = Queue::new(config(), true, Some(record));
    for id in [7, 8] {
        let fetched = store(queue.wanted("a", 0).unwrap());
        assert_eq!(queue.get("a", 0, fetched).unwrap().unwrap().id(), id);
    }
    let fetched = store(queue.wanted("a", 0).unwrap());
    assert_eq!(queue.get("a", 0, fetched).unwrap().unwrap_err(), 9);
}

#[test]
fn what_is_handed_out_is_in_flight_or_acknowledged() {
    let mut q = get_queue();
    q.create_channel("a", 0);
    let mut open = Vec::new();
    for clock in 0..40u32 {
        q.push(&[clock as u8], clock);
        let id = q.get("a", clock).unwrap().unwrap().id();
        open.push(id);
        if clock % 3 == 0 {
            assert_eq!(q.ack("a", id, clock), Some(true));
            open.retain(|other| *other != id);
        }
        if clock % 5 == 0 {
            q.info(clock);
        }
        let oldest = open.iter().min().copied();
        let tail = q.info(clock).channels.get("a").unwrap().tail;
        let kept = q.queue.checkpoint(false).record.channels.get("a").unwrap().tail;
        assert_eq!(kept, oldest.unwrap_or(tail));
    }
}

#[test]
fn calls_on_channels_keep_state_and_name() {
    let mut q = get_queue();
    q.delete();
    q.create_channel("a", 0);
    q.push(b"m", 0);
    q.get("a", 0).unwrap().unwrap();
    q.ack("a", 0, 0);
    q.info(0);
    q.purge();
    q.queue.delete_channel("a");
    q.maintenance();
    assert_eq!(q.written.as_ref().unwrap().state, QueueState::Deleting);
    assert_eq!(q.queue.name(), "queue");
}

#[test]
fn first_deliveries_grow_and_messages_rest_until_their_deadline() {
    let config = QueueConfig { name: "q".to_string(), time_to_live: 4 };
    let (queue, plan) = Queue::new(config, false, None);
    let mut q = Harness {
        queue,
        store: Store::new(),
        written: Some(plan.unwrap().record),
        store_checkpoints: Vec::new(),
    };
    q.create_channel("a", 0);
    let mut handed: Vec<(u64, u32)> = Vec::new();
    let mut acked: Vec<u64> = Vec::new();
    for clock in 0..60u32 {
        if clock % 2 == 0 {
            q.push(b"m", clock);
        }
        for _ in 0..2 {
            if let Ok(message) = q.get("a", clock).unwrap() {
                let id = message.id();
                assert!(!acked.contains(&id));
                match handed.iter().rev().find(|(other, _)| *other == id) {
                    Some((_, before)) => assert!(before + 4 <= clock),
                    None => assert!(handed.iter().all(|(other, _)| *other < id)),
                }
                handed.push((id, clock));
                if id % 3 != 0 {
                    assert_eq!(q.ack("a", id, clock), Some(true));
                    acked.push(id);
                }
            }
        }
        for id in &acked {
            assert_eq!(q.queue.ack("a", *id, clock), Some(false));
        }
        if clock % 7 == 0 {
            q.info(clock);
        }
    }
    assert!(acked.len() > 5);
    assert!(handed.len() > 2 * acked.len());
}

#[test]
fn count_is_of_what_can_be_acknowledged() {
    let mut q = get_queue();
    q.create_channel("a", 0);
    for clock in 0..6u32 {
        q.push(b"m", clock);
        q.get("a", 0).unwrap().unwrap();
    }
    let ackable = |q: &mut Harness, clock: u32| {
        let before = q.info(clock).channels.get("a").unwrap().in_flight_count;
        let done = (0..6).filter(|id| q.ack("a", *id, clock) == Some(true)).count();
        (before, done as u32)
    };
    assert_eq!(ackable(&mut q, 1), (0, 0));
    // two are handed out again, and can be acknowledged
    q.get("a", 1).unwrap().unwrap();
    q.get("a", 1).unwrap().unwrap();
    assert_eq!(ackable(&mut q, 1), (2, 2));
    // nothing is answered only once nothing is past its deadline
    for _ in 0..4 {
        assert!(q.get("a", 2).unwrap().is_ok());
    }
    assert!(q.get("a", 2).unwrap().is_err());
}
