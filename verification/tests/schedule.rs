use aika::environment::Event;
use aika::schedule::EventQueue;

fn event(time: u64, process_id: usize) -> Event<u8> {
    Event { time, process_id, state: 0 }
}

fn order(queue: &EventQueue<u8>) -> Vec<(u64, usize)> {
    queue.events().iter().map(|e| (e.time, e.process_id)).collect()
}

fn drain(queue: &mut EventQueue<u8>) -> Vec<(u64, usize)> {
    let mut out = Vec::new();
    while let Some(e) = queue.pop() {
        out.push((e.time, e.process_id));
    }
    out
}

#[test]
fn a_fresh_event_queue_is_empty() {
    let mut queue = EventQueue::<u8>::new();
    assert!(queue.is_empty());
    assert_eq!(queue.len(), 0);
    assert!(queue.pop().is_none());
    assert!(queue.is_empty());
}

#[test]
fn events_leave_the_queue_in_time_order() {
    let mut queue = EventQueue::new();
    for (i, t) in [5u64, 1, 9, 3, 7, 0, 8].iter().enumerate() {
        queue.push(event(*t, i));
    }
    assert_eq!(queue.len(), 7);
    assert!(!queue.is_empty());
    assert_eq!(order(&queue), vec![(0, 5), (1, 1), (3, 3), (5, 0), (7, 4), (8, 6), (9, 2)]);
    assert_eq!(drain(&mut queue), vec![(0, 5), (1, 1), (3, 3), (5, 0), (7, 4), (8, 6), (9, 2)]);
    assert!(queue.is_empty());
}

#[test]
fn simultaneous_events_leave_the_queue_in_the_order_they_came() {
    let mut queue = EventQueue::new();
    queue.push(event(4, 0));
    queue.push(event(2, 1));
    queue.push(event(4, 2));
    queue.push(event(2, 3));
    queue.push(event(4, 4));
    queue.push(event(3, 5));
    queue.push(event(2, 6));
    assert_eq!(
        drain(&mut queue),
        vec![(2, 1), (2, 3), (2, 6), (3, 5), (4, 0), (4, 2), (4, 4)]
    );
}

#[test]
fn an_event_scheduled_between_pops_keeps_its_place() {
    let mut queue = EventQueue::new();
    queue.push(event(1, 0));
    queue.push(event(5, 1));
    queue.push(event(5, 2));
    let first = queue.pop().unwrap();
    assert_eq!((first.time, first.process_id), (1, 0));
    queue.push(event(5, 3));
    queue.push(event(1, 4));
    queue.push(event(u64::MAX, 5));
    queue.push(event(0, 6));
    assert_eq!(drain(&mut queue), vec![(0, 6), (1, 4), (5, 1), (5, 2), (5, 3), (u64::MAX, 5)]);
}

#[test]
fn many_events_at_few_times_stay_first_in_first_out() {
    let mut queue = EventQueue::new();
    let mut expected = Vec::new();
    for i in 0..200usize {
        let t = ((i * 7) % 5) as u64;
        queue.push(event(t, i));
        expected.push((t, i));
    }
    expected.sort_by_key(|(t, _)| *t);
    assert_eq!(drain(&mut queue), expected);
}

#[test]
fn events_compare_by_their_time() {
    let early = Event { time: 1, process_id: 9, state: 7u8 };
    let late = Event { time: 2, process_id: 0, state: 0u8 };
    let twin = Event { time: 1, process_id: 3, state: 1u8 };
    assert!(early < late);
    assert!(late > early);
    assert!(early <= twin && early >= twin);
    assert!(early == twin);
    assert!(early != late);
    assert_eq!(early.partial_cmp(&late), Some(std::cmp::Ordering::Less));
    assert_eq!(late.partial_cmp(&early), Some(std::cmp::Ordering::Greater));
    assert_eq!(early.partial_cmp(&twin), Some(std::cmp::Ordering::Equal));
}
