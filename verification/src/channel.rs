//! One reader of a queue: how far it has read, and what it has handed out.

use crate::heap::{self, IdHeap};
use crate::in_flight;
use crate::message::Message;
use linked_hash_map::LinkedHashMap;
use vstd::multiset::Multiset;
use vstd::prelude::*;

verus! {

/// What a channel is, over plain values.
#[verifier::ext_equal]
pub struct ChannelView {
    /// The clock of the last call that named the channel.
    pub last_touched: u32,
    /// How many ids at the front of `in_flight` are known to be past their deadline.
    pub expired_count: nat,
    /// The id to read next from the store.
    pub tail: u64,
    /// The ids handed out and not acknowledged, with their deadlines, the oldest first. A
    /// deadline that was found to be past is 0.
    pub in_flight: Seq<(u64, u32)>,
    /// The ids that hold the channel back: those in flight, and some that were.
    pub held: Multiset<u64>,
}

/// The first place, from `from` on, whose deadline is not past at `clock`.
pub open spec fn first_alive(entries: Seq<(u64, u32)>, from: int, clock: u32) -> int
    decreases entries.len() - from,
{
    if 0 <= from < entries.len() && clock >= entries[from].1 {
        first_alive(entries, from + 1, clock)
    } else {
        from
    }
}

/// A held id that is in flight stands at or below `id`.
pub open spec fn is_held_back(held: Multiset<u64>, entries: Seq<(u64, u32)>, id: u64) -> bool {
    exists|floor: u64|
        floor <= id && held.contains(floor) && #[trigger] in_flight::has_id(entries, floor)
}

/// The held ids that are left once all below the least one in flight are dropped.
pub open spec fn trimmed(held: Multiset<u64>, entries: Seq<(u64, u32)>) -> Multiset<u64> {
    held.filter(|id: u64| is_held_back(held, entries, id))
}

impl ChannelView {
    /// No id is in flight twice, the ids in flight can be counted in 32 bits, and those
    /// counted as expired are marked.
    pub open spec fn wf(self) -> bool {
        &&& in_flight::distinct_ids(self.in_flight)
        &&& self.in_flight.len() <= u32::MAX
        &&& self.expired_count <= self.in_flight.len()
        &&& forall|i: int| 0 <= i < self.expired_count ==> (#[trigger] self.in_flight[i]).1 == 0
    }

    /// A channel that has handed nothing out and reads from `tail`.
    pub open spec fn starting(clock: u32, tail: u64) -> ChannelView {
        ChannelView {
            last_touched: clock,
            expired_count: 0,
            tail,
            in_flight: Seq::empty(),
            held: Multiset::empty(),
        }
    }

    /// Where a reader would have to start so as to miss nothing that is held.
    pub open spec fn real_tail(self) -> u64 {
        if self.held == Multiset::<u64>::empty() {
            self.tail
        } else {
            choose|id: u64| heap::is_least(self.held, id)
        }
    }

    /// How many ids at the front are past their deadline at `clock`.
    pub open spec fn expired_at(self, clock: u32) -> int {
        first_alive(self.in_flight, self.expired_count as int, clock)
    }

    /// How many ids are in flight at `clock`, those past their deadline left out.
    pub open spec fn alive_at(self, clock: u32) -> int {
        self.in_flight.len() - self.expired_at(clock)
    }

    /// The channel once the deadlines that are past at `clock` have been marked.
    pub open spec fn swept(self, clock: u32) -> ChannelView {
        ChannelView {
            expired_count: self.expired_at(clock) as nat,
            in_flight: Seq::new(
                self.in_flight.len(),
                |i: int|
                    if self.expired_count <= i < self.expired_at(clock) {
                        (self.in_flight[i].0, 0u32)
                    } else {
                        self.in_flight[i]
                    },
            ),
            ..self
        }
    }

    /// The oldest id in flight is past its deadline at `clock`.
    pub open spec fn due(self, clock: u32) -> bool {
        self.in_flight.len() > 0 && clock >= self.in_flight[0].1
    }

    /// The id to ask the store for at `clock`: one to hand out again, or the next one.
    pub open spec fn wanted(self, clock: u32) -> u64 {
        if self.due(clock) {
            self.in_flight[0].0
        } else {
            self.tail
        }
    }

    /// Whether the channel can go on at `clock` with what the store has answered: a message
    /// that is due again must be there, and no number may outgrow its type.
    pub open spec fn accepts(
        self,
        clock: u32,
        time_to_live: u32,
        fetched: Option<Message>,
    ) -> bool {
        if self.due(clock) {
            &&& fetched is Some
            &&& clock + time_to_live <= u32::MAX
            &&& self.in_flight[0].1 == 0 ==> self.expired_count > 0
        } else {
            fetched matches Some(message) ==> {
                &&& clock + time_to_live <= u32::MAX
                &&& message.id < u64::MAX
                &&& in_flight::has_id(self.in_flight, message.id) || self.in_flight.len() < u32::MAX
            }
        }
    }

    /// The channel after it was asked for a message at `clock` and the store answered
    /// `fetched` for the wanted id.
    pub open spec fn after_get(
        self,
        clock: u32,
        time_to_live: u32,
        fetched: Option<Message>,
    ) -> ChannelView {
        let deadline = (clock + time_to_live) as u32;
        if self.due(clock) {
            ChannelView {
                last_touched: clock,
                expired_count: if self.in_flight[0].1 == 0 {
                    (self.expired_count - 1) as nat
                } else {
                    self.expired_count
                },
                in_flight: self.in_flight.drop_first().push((self.in_flight[0].0, deadline)),
                ..self
            }
        } else {
            match fetched {
                Some(message) => ChannelView {
                    last_touched: clock,
                    tail: (message.id + 1) as u64,
                    in_flight: in_flight::without_id(self.in_flight, message.id).push(
                        (message.id, deadline),
                    ),
                    held: self.held.insert(message.id),
                    ..self
                },
                None => ChannelView { last_touched: clock, ..self },
            }
        }
    }

    /// What is handed to the reader: the message, or the id that is not there yet.
    pub open spec fn answer(self, fetched: Option<Message>) -> Result<Message, u64> {
        match fetched {
            Some(message) => Ok(message),
            None => Err(self.tail),
        }
    }

    /// The id is in flight and its deadline is not past at `clock`.
    pub open spec fn can_ack(self, id: u64, clock: u32) -> bool {
        &&& in_flight::has_id(self.in_flight, id)
        &&& clock < self.in_flight[in_flight::index_of_id(self.in_flight, id)].1
    }

    /// The channel after the id was acknowledged at `clock`.
    pub open spec fn after_ack(self, id: u64, clock: u32) -> ChannelView {
        if self.can_ack(id, clock) {
            let rest = in_flight::without_id(self.in_flight, id);
            ChannelView {
                last_touched: clock,
                in_flight: rest,
                held: trimmed(self.held, rest),
                ..self
            }
        } else {
            ChannelView { last_touched: clock, ..self }
        }
    }

    /// The channel after the store was emptied and begins at `tail`.
    pub open spec fn after_purge(self, tail: u64) -> ChannelView {
        ChannelView {
            tail,
            in_flight: Seq::empty(),
            expired_count: 0,
            held: Multiset::empty(),
            ..self
        }
    }
}

/// One reader of a queue.
#[derive(Debug)]
pub struct Channel {
    last_touched: u32,
    expired_count: u32,
    tail: u64,
    // the ids in flight (possibly expired), by id and by age
    in_flight_map: LinkedHashMap<u64, u32>,
    // the smallest ids in flight (possibly expired)
    in_flight_heap: IdHeap,
}

impl View for Channel {
    type V = ChannelView;

    closed spec fn view(&self) -> ChannelView {
        ChannelView {
            last_touched: self.last_touched,
            expired_count: self.expired_count as nat,
            tail: self.tail,
            in_flight: in_flight::contents(self.in_flight_map),
            held: self.in_flight_heap@,
        }
    }
}

/// Both ends of the sweep are inside the entries.
pub proof fn lemma_first_alive(entries: Seq<(u64, u32)>, from: int, clock: u32)
    requires
        0 <= from <= entries.len(),
    ensures
        from <= first_alive(entries, from, clock) <= entries.len(),
        forall|i: int|
            from <= i < first_alive(entries, from, clock) ==> clock >= (#[trigger] entries[i]).1,
        first_alive(entries, from, clock) < entries.len() ==> clock < entries[first_alive(
            entries,
            from,
            clock,
        )].1,
    decreases entries.len() - from,
{
    if from < entries.len() && clock >= entries[from].1 {
        lemma_first_alive(entries, from + 1, clock);
    }
}

/// There is one least id at most.
pub proof fn lemma_least_is_unique(ids: Multiset<u64>, a: u64, b: u64)
    requires
        heap::is_least(ids, a),
        heap::is_least(ids, b),
    ensures
        a == b,
{
}

/// Where the least held id is in flight, nothing is dropped.
proof fn lemma_trimmed_from(held: Multiset<u64>, entries: Seq<(u64, u32)>, top: u64)
    requires
        heap::is_least(held, top),
        in_flight::has_id(entries, top),
    ensures
        trimmed(held, entries) == held,
{
    assert forall|id: u64| trimmed(held, entries).count(id) == held.count(id) by {
        if held.contains(id) {
            assert(top <= id && held.contains(top) && in_flight::has_id(entries, top));
        }
    }
    assert(trimmed(held, entries) =~= held);
}

/// A least held id that is not in flight is dropped.
proof fn lemma_trimmed_step(held: Multiset<u64>, entries: Seq<(u64, u32)>, top: u64)
    requires
        heap::is_least(held, top),
        !in_flight::has_id(entries, top),
    ensures
        trimmed(held.remove(top), entries) == trimmed(held, entries),
{
    let less = held.remove(top);
    assert forall|id: u64| trimmed(less, entries).count(id) == trimmed(held, entries).count(id) by {
        if is_held_back(held, entries, id) {
            let floor = choose|floor: u64|
                floor <= id && held.contains(floor) && #[trigger] in_flight::has_id(entries, floor);
            assert(less.contains(floor));
            assert(top < floor);
        }
        if is_held_back(less, entries, id) {
            let floor = choose|floor: u64|
                floor <= id && less.contains(floor) && #[trigger] in_flight::has_id(entries, floor);
            assert(held.contains(floor));
        }
    }
    assert(trimmed(less, entries) =~= trimmed(held, entries));
}

impl Channel {
    /// The heap is a heap, and what the channel holds is in order.
    pub closed spec fn wf(&self) -> bool {
        &&& self.in_flight_heap.wf()
        &&& self@.wf()
    }

    /// What a well-formed channel holds is in order.
    pub proof fn lemma_wf(&self)
        requires
            self.wf(),
        ensures
            self@.wf(),
    {
    }

    /// A channel that has handed nothing out and reads from `tail`.
    pub fn new(last_touched: u32, tail: u64) -> (channel: Channel)
        ensures
            channel.wf(),
            channel@ == ChannelView::starting(last_touched, tail),
    {
        Channel {
            last_touched,
            expired_count: 0,
            tail,
            in_flight_map: in_flight::new_map(),
            in_flight_heap: IdHeap::new(),
        }
    }

    /// The clock of the last call that named the channel.
    pub fn last_touched(&self) -> (clock: u32)
        ensures
            clock == self@.last_touched,
    {
        self.last_touched
    }

    /// The id to read next from the store.
    pub fn tail(&self) -> (tail: u64)
        ensures
            tail == self@.tail,
    {
        self.tail
    }

    /// Where a reader would have to start so as to miss nothing that is held.
    pub fn real_tail(&self) -> (tail: u64)
        requires
            self.wf(),
        ensures
            tail == self@.real_tail(),
    {
        match self.in_flight_heap.peek() {
            Some(id) => {
                proof {
                    assert(heap::is_least(self@.held, id));
                    lemma_least_is_unique(self@.held, id, self@.real_tail());
                }
                id
            },
            None => self.tail,
        }
    }

    /// Marks the deadlines at the front that are past at `clock`, and counts the ids in
    /// flight that are left.
    pub fn in_flight_count(&mut self, clock: u32) -> (n: u32)
        requires
            old(self).wf(),
        ensures
            final(self).wf(),
            final(self)@ == old(self)@.swept(clock),
            n == old(self)@.alive_at(clock),
    {
        let ghost before = self@;
        let all = in_flight::entries(&self.in_flight_map);
        let mut i: usize = self.expired_count as usize;
        proof {
            lemma_first_alive(all@, before.expired_count as int, clock);
            assert(before.in_flight =~= self@.in_flight);
        }
        while i < all.len()
            invariant
                before.wf(),
                self.in_flight_heap.wf(),
                all@ == before.in_flight,
                before.expired_count <= i <= all@.len(),
                i == self.expired_count,
                self@ == (ChannelView {
                    expired_count: i as nat,
                    in_flight: self@.in_flight,
                    ..before
                }),
                self@.in_flight.len() == all@.len(),
                forall|j: int|
                    0 <= j < all@.len() ==> #[trigger] self@.in_flight[j] == if before.expired_count
                        <= j < i {
                        (all@[j].0, 0u32)
                    } else {
                        all@[j]
                    },
                first_alive(all@, i as int, clock) == before.expired_at(clock),
            ensures
                i == before.expired_at(clock),
            decreases all.len() - i,
        {
            let (id, deadline) = all[i];
            if clock >= deadline {
                let ghost entries_before = self@.in_flight;
                proof {
                    assert(in_flight::distinct_ids(entries_before)) by {
                        assert forall|j: int, k: int| 0 <= j < k < entries_before.len() implies (
                        #[trigger] entries_before[j]).0 != (#[trigger] entries_before[k]).0 by {
                            assert(all@[j].0 != all@[k].0);
                        }
                    }
                    in_flight::lemma_index_of_id(entries_before, i as int);
                }
                self.expired_count = self.expired_count + 1;
                if let Some(slot) = in_flight::deadline_mut(&mut self.in_flight_map, id) {
                    *slot = 0;
                }
                i = i + 1;
            } else {
                break;
            }
        }
        proof {
            lemma_first_alive(all@, before.expired_count as int, clock);
            assert(self@.in_flight =~= before.swept(clock).in_flight);
            assert forall|j: int, k: int|
                0 <= j < k < self@.in_flight.len() implies (#[trigger] self@.in_flight[j]).0 != (
            #[trigger] self@.in_flight[k]).0 by {
                assert(all@[j].0 != all@[k].0);
            }
        }
        in_flight::count(&self.in_flight_map) as u32 - self.expired_count
    }

    /// The id to ask the store for at `clock`: one to hand out again, or the next one.
    pub fn wanted(&self, clock: u32) -> (id: u64)
        ensures
            id == self@.wanted(clock),
    {
        match in_flight::front(&self.in_flight_map) {
            Some((id, deadline)) => if clock >= deadline {
                id
            } else {
                self.tail
            },
            None => self.tail,
        }
    }

    /// Whether the channel can go on at `clock` with what the store has answered.
    pub fn accepts(&self, clock: u32, time_to_live: u32, fetched: &Option<Message>) -> (ok: bool)
        ensures
            ok == self@.accepts(clock, time_to_live, *fetched),
    {
        let fits = time_to_live <= u32::MAX - clock;
        match in_flight::front(&self.in_flight_map) {
            Some((_, deadline)) if clock >= deadline => {
                fetched.is_some() && fits && (deadline != 0 || self.expired_count > 0)
            },
            _ => match fetched {
                Some(message) => {
                    let known = in_flight::contains(&self.in_flight_map, message.id);
                    let room = in_flight::count(&self.in_flight_map) < u32::MAX as usize;
                    fits && message.id < u64::MAX && (known || room)
                },
                None => true,
            },
        }
    }

    /// Hands the oldest id that is past its deadline out again, or else the message that the
    /// store has from the tail on, if there is one. `fetched` is what the store answers for
    /// [`Channel::wanted`].
    pub fn get(&mut self, clock: u32, time_to_live: u32, fetched: Option<Message>) -> (answer:
        Result<Message, u64>)
        requires
            old(self).wf(),
            old(self)@.accepts(clock, time_to_live, fetched),
        ensures
            final(self).wf(),
            final(self)@ == old(self)@.after_get(clock, time_to_live, fetched),
            answer == old(self)@.answer(fetched),
    {
        let ghost before = self@;
        self.last_touched = clock;

        if let Some((id, deadline)) = in_flight::front(&self.in_flight_map) {
            // check the oldest id in flight for a timeout
            if clock >= deadline {
                if deadline == 0 {
                    self.expired_count = self.expired_count - 1;
                }
                proof {
                    in_flight::lemma_index_of_id(before.in_flight, 0);
                }
                if let Some(slot) = in_flight::refresh(&mut self.in_flight_map, id) {
                    *slot = clock + time_to_live;
                }
                proof {
                    let next = before.after_get(clock, time_to_live, fetched);
                    assert(before.in_flight.remove(0) =~= before.in_flight.drop_first());
                    assert(self@.in_flight =~= next.in_flight);
                    assert(before.expired_count > 0 ==> before.in_flight[0].1 == 0);
                    assert forall|j: int, k: int|
                        0 <= j < k < self@.in_flight.len() implies (#[trigger] self@.in_flight[j]).0
                        != (#[trigger] self@.in_flight[k]).0 by {
                        assert(self@.in_flight[j] == before.in_flight[j + 1]);
                        if k == self@.in_flight.len() - 1 {
                            assert(before.in_flight[0].0 != before.in_flight[j + 1].0);
                        } else {
                            assert(self@.in_flight[k] == before.in_flight[k + 1]);
                        }
                    }
                    assert forall|j: int| 0 <= j < self@.expired_count implies (
                    #[trigger] self@.in_flight[j]).1 == 0 by {
                        assert(self@.in_flight[j] == before.in_flight[j + 1]);
                    }
                }
                return Ok(fetched.unwrap());
            }
        }
        // take what the store has next
        match fetched {
            Some(message) => {
                in_flight::insert(&mut self.in_flight_map, message.id, clock + time_to_live);
                self.in_flight_heap.push(message.id);
                self.tail = message.id + 1;
                proof {
                    let id = message.id;
                    let rest = in_flight::without_id(before.in_flight, id);
                    in_flight::lemma_without_id(before.in_flight, id);
                    if in_flight::has_id(before.in_flight, id) {
                        let at = in_flight::index_of_id(before.in_flight, id);
                        assert(before.in_flight[at].0 == id);
                    }
                    assert(before.expired_count > 0 ==> before.in_flight[0].1 == 0);
                    assert(before.expired_count == 0);
                    assert forall|j: int, k: int|
                        0 <= j < k < self@.in_flight.len() implies (#[trigger] self@.in_flight[j]).0
                        != (#[trigger] self@.in_flight[k]).0 by {
                        assert(self@.in_flight[j] == rest[j]);
                        if k < rest.len() {
                            assert(self@.in_flight[k] == rest[k]);
                        }
                    }
                }
                Ok(message)
            },
            None => Err(self.tail),
        }
    }

    /// Takes the id out of flight, if it is there and its deadline is not past at `clock`.
    pub fn ack(&mut self, id: u64, clock: u32) -> (done: bool)
        requires
            old(self).wf(),
        ensures
            final(self).wf(),
            final(self)@ == old(self)@.after_ack(id, clock),
            done == old(self)@.can_ack(id, clock),
    {
        let ghost before = self@;
        self.last_touched = clock;

        // the id must be there, and not be expired
        let alive = match in_flight::deadline_of(&self.in_flight_map, id) {
            Some(deadline) => clock < deadline,
            None => false,
        };
        if !alive {
            return false;
        }

        in_flight::remove(&mut self.in_flight_map, id);
        let ghost rest = in_flight::without_id(before.in_flight, id);
        proof {
            in_flight::lemma_without_id(before.in_flight, id);
            let at = in_flight::index_of_id(before.in_flight, id);
            assert(before.in_flight[at].0 == id && at >= before.expired_count);
        }
        // advance the real tail
        loop
            invariant
                self.in_flight_heap.wf(),
                self@ == (ChannelView {
                    last_touched: clock,
                    in_flight: rest,
                    held: self@.held,
                    ..before
                }),
                trimmed(self@.held, rest) == trimmed(before.held, rest),
            ensures
                self@.held == trimmed(before.held, rest),
            decreases self@.held.len(),
        {
            match self.in_flight_heap.peek() {
                Some(top) => {
                    if in_flight::contains(&self.in_flight_map, top) {
                        proof {
                            lemma_trimmed_from(self@.held, rest, top);
                        }
                        break;
                    }
                    proof {
                        lemma_trimmed_step(self@.held, rest, top);
                    }
                    self.in_flight_heap.pop();
                },
                None => {
                    assert(trimmed(self@.held, rest) =~= self@.held);
                    break;
                },
            }
        }
        true
    }

    /// Forgets what is in flight and reads from `tail`.
    pub fn purge(&mut self, tail: u64)
        requires
            old(self).wf(),
        ensures
            final(self).wf(),
            final(self)@ == old(self)@.after_purge(tail),
    {
        self.tail = tail;
        in_flight::clear(&mut self.in_flight_map);
        self.in_flight_heap = IdHeap::new();
        self.expired_count = 0;
    }
}

} // verus!
