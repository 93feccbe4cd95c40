//! The heap, the names and a single channel.

use channel_queue::channel::Channel;
use channel_queue::heap::IdHeap;
use channel_queue::message::Message;
use channel_queue::names::{compare_names, NameMap, NameOrder};

#[test]
fn heap_gives_ids_in_order() {
    let mut heap = IdHeap::new();
    assert_eq!(heap.peek(), None);
    assert_eq!(heap.pop(), None);
    for id in [5, 3, 9, 3, 0, 7, u64::MAX, 1] {
        heap.push(id);
    }
    assert_eq!(heap.peek(), Some(0));
    let mut all = Vec::new();
    while let Some(id) = heap.pop() {
        all.push(id);
    }
    assert_eq!(all, vec![0, 1, 3, 3, 5, 7, 9, u64::MAX]);
}

#[test]
fn heap_takes_ids_between_pops() {
    let mut heap = IdHeap::new();
    heap.push(4);
    heap.push(2);
    assert_eq!(heap.pop(), Some(2));
    heap.push(1);
    assert_eq!(heap.pop(), Some(1));
    assert_eq!(heap.pop(), Some(4));
    assert_eq!(heap.pop(), None);
}

#[test]
fn names_are_ordered_as_strings_are() {
    let names = ["", "a", "aa", "ab", "b", "B", "\u{e9}", "z", "\u{1f600}", "\u{ffff}", "a\0"];
    for a in names {
        for b in names {
            let expected = if a < b {
                NameOrder::Before
            } else if a == b {
                NameOrder::Same
            } else {
                NameOrder::After
            };
            assert_eq!(compare_names(a, b), expected);
        }
    }
}

#[test]
fn name_map_holds_each_name_once_in_order() {
    let mut map: NameMap<u32> = NameMap::new();
    assert_eq!(map.len(), 0);
    for (name, value) in [("m", 1), ("c", 2), ("x", 3), ("c", 4), ("a", 5)] {
        map.insert(name.to_string(), value);
    }
    assert_eq!(map.len(), 4);
    let listed: Vec<(String, u32)> =
        (0..map.len()).map(|i| (map.name_at(i).clone(), *map.value_at(i))).collect();
    let expected = vec![
        ("a".to_string(), 5),
        ("c".to_string(), 4),
        ("m".to_string(), 1),
        ("x".to_string(), 3),
    ];
    assert_eq!(listed, expected);
    assert_eq!(map.get("c"), Some(&4));
    assert_eq!(map.get("d"), None);
    *map.get_mut("m").unwrap() += 10;
    *map.value_at_mut(0) += 100;
    assert!(map.get_mut("d").is_none());
    assert_eq!(map.remove("m"), Some(11));
    assert_eq!(map.remove("m"), None);
    assert_eq!(map.get("a"), Some(&105));
    assert_eq!(map.len(), 3);
}

fn message(id: u64) -> Option<Message> {
    Some(Message { id, body: vec![id as u8] })
}

#[test]
fn channel_counts_and_acknowledges() {
    let mut channel = Channel::new(3, 10);
    assert_eq!(channel.last_touched(), 3);
    assert_eq!(channel.tail(), 10);
    assert_eq!(channel.real_tail(), 10);
    assert_eq!(channel.wanted(4), 10);
    assert!(channel.accepts(4, 2, &message(10)));
    assert_eq!(channel.get(4, 2, message(10)).unwrap().body(), [10]);
    assert_eq!(channel.get(5, 2, message(12)).unwrap().id(), 12);
    assert_eq!(channel.get(5, 2, None).unwrap_err(), 13);
    assert_eq!(channel.real_tail(), 10);
    assert_eq!(channel.in_flight_count(5), 2);
    assert_eq!(channel.in_flight_count(6), 1);
    assert_eq!(channel.in_flight_count(6), 1);
    assert!(!channel.ack(10, 6));
    assert!(channel.ack(12, 6));
    assert_eq!(channel.in_flight_count(6), 0);
    assert_eq!(channel.real_tail(), 10);
    assert_eq!(channel.wanted(6), 10);
    assert_eq!(channel.get(6, 2, message(10)).unwrap().id(), 10);
    assert!(channel.ack(10, 7));
    assert_eq!(channel.real_tail(), 13);
    assert_eq!(channel.last_touched(), 7);
    channel.purge(20);
    assert_eq!((channel.tail(), channel.real_tail()), (20, 20));
}

#[test]
fn real_tail_is_not_above_what_is_in_flight() {
    let mut channel = Channel::new(0, 0);
    for id in [0, 1, 2, 5, 8] {
        channel.get(0, 3, message(id)).unwrap();
        assert!(channel.real_tail() < channel.tail());
    }
    for (id, real_tail) in [(2, 0), (0, 1), (8, 1), (1, 5), (5, 9)] {
        assert!(channel.ack(id, 1));
        assert_eq!(channel.real_tail(), real_tail);
        assert!(channel.real_tail() <= channel.wanted(1));
    }
    assert_eq!(channel.real_tail(), channel.tail());
}
