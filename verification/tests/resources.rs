use aika::environment::Event;
use aika::error::SimError;
use aika::resources::{Arithmetic, Blocked, Containers, Resources, Stores};

fn event(time: u64, process_id: usize, state: u32) -> Event<u32> {
    Event { time, process_id, state }
}

fn fields(event: &Event<u32>) -> (u64, usize, u32) {
    (event.time, event.process_id, event.state)
}

fn granted(answer: Result<Event<u32>, Blocked>) -> Option<(u64, usize, u32)> {
    answer.ok().map(|e| fields(&e))
}

fn woken<E>(answer: Result<Option<Event<u32>>, E>) -> Option<(u64, usize, u32)> {
    answer.ok().unwrap().map(|e| fields(&e))
}

#[test]
fn a_fresh_pool_has_every_unit_available() {
    let pool = Resources::<u32>::new(3);
    assert_eq!(pool.capacity(), 3);
    assert_eq!(pool.available(), 3);
    assert_eq!(pool.waiting(), 0);
}

#[test]
fn a_pool_grants_units_until_none_is_left() {
    let mut pool = Resources::<u32>::new(2);
    assert_eq!(granted(pool.request(event(0, 0, 10))), Some((0, 0, 10)));
    assert_eq!(pool.available(), 1);
    assert_eq!(granted(pool.request(event(1, 1, 11))), Some((1, 1, 11)));
    assert_eq!(pool.available(), 0);
    assert!(matches!(pool.request(event(2, 2, 12)), Err(Blocked)));
    assert_eq!(pool.available(), 0);
    assert_eq!(pool.waiting(), 1);
    assert_eq!(pool.capacity(), 2);
}

#[test]
fn a_pool_wakes_its_waiters_in_the_order_they_came() {
    let mut pool = Resources::<u32>::new(1);
    assert!(pool.request(event(0, 0, 10)).is_ok());
    assert!(pool.request(event(1, 1, 11)).is_err());
    assert!(pool.request(event(2, 2, 12)).is_err());
    assert!(pool.request(event(2, 3, 13)).is_err());
    assert_eq!(pool.waiting(), 3);
    assert_eq!(woken(pool.release(event(5, 0, 0))), Some((5, 1, 11)));
    assert_eq!(woken(pool.release(event(5, 1, 0))), Some((5, 2, 12)));
    assert_eq!(woken(pool.release(event(9, 2, 0))), Some((9, 3, 13)));
    assert_eq!(pool.available(), 0);
    assert_eq!(pool.waiting(), 0);
    assert_eq!(woken(pool.release(event(9, 3, 0))), None);
    assert_eq!(pool.available(), 1);
}

#[test]
fn a_pool_with_no_unit_outstanding_refuses_a_release() {
    let mut pool = Resources::<u32>::new(2);
    assert!(matches!(pool.release(event(0, 0, 0)), Err(SimError::Overflow)));
    assert_eq!(pool.available(), 2);
    assert!(pool.request(event(0, 0, 1)).is_ok());
    assert!(matches!(pool.release(event(1, 0, 0)), Ok(None)));
    assert!(matches!(pool.release(event(2, 0, 0)), Err(SimError::Overflow)));
    assert_eq!(pool.available(), 2);
}

#[test]
fn a_pool_without_units_parks_every_request() {
    let mut pool = Resources::<u32>::new(0);
    assert!(pool.request(event(0, 0, 1)).is_err());
    assert_eq!(woken(pool.release(event(3, 1, 0))), Some((3, 0, 1)));
    assert!(matches!(pool.release(event(3, 1, 0)), Err(SimError::Overflow)));
}

#[test]
fn buffer_clamp() {
    let mut buffer = Containers::<i64>::new(1000, 300).ok().unwrap();
    assert_eq!(buffer.put(900), Ok(()));
    assert_eq!(*buffer.level(), 1000);
    assert_eq!(buffer.put(900), Ok(()));
    assert_eq!(buffer.put(900), Ok(()));
    assert_eq!(*buffer.level(), 1000);
    assert_eq!(*buffer.capacity(), 1000);
}

#[test]
fn a_buffer_adds_what_fits() {
    let mut buffer = Containers::<u8>::new(200, 0).ok().unwrap();
    assert_eq!(buffer.put(120), Ok(()));
    assert_eq!(*buffer.level(), 120);
    assert_eq!(buffer.put(80), Ok(()));
    assert_eq!(*buffer.level(), 200);
    assert_eq!(buffer.put(255), Ok(()));
    assert_eq!(*buffer.level(), 200);
    assert_eq!(buffer.put(0), Ok(()));
    assert_eq!(*buffer.level(), 200);
}

#[test]
fn a_buffer_at_the_limit_of_its_type_does_not_overflow() {
    let mut buffer = Containers::<i8>::new(127, 100).ok().unwrap();
    assert_eq!(buffer.put(127), Ok(()));
    assert_eq!(*buffer.level(), 127);
    assert_eq!(buffer.get(127), Ok(127));
    assert_eq!(*buffer.level(), 0);
    assert_eq!(buffer.get(-128), Err(SimError::NegativeAmount));
    assert_eq!(buffer.put(-128), Err(SimError::NegativeAmount));
    assert_eq!(*buffer.level(), 0);
}

#[test]
fn a_buffer_gives_what_it_holds() {
    let mut buffer = Containers::<i32>::new(10, 7).ok().unwrap();
    assert_eq!(buffer.get(3), Ok(3));
    assert_eq!(*buffer.level(), 4);
    assert_eq!(buffer.get(0), Ok(0));
    assert_eq!(buffer.get(4), Ok(4));
    assert_eq!(*buffer.level(), 0);
}

#[test]
fn underflow_then_retry() {
    let mut buffer = Containers::<i64>::new(1000, 0).ok().unwrap();
    assert_eq!(buffer.get(5), Err(SimError::ResourceUnderflow));
    assert_eq!(*buffer.level(), 0);
    assert_eq!(buffer.put(5), Ok(()));
    assert_eq!(buffer.get(5), Ok(5));
    assert_eq!(*buffer.level(), 0);
}

#[test]
fn a_buffer_refuses_negative_amounts() {
    let mut buffer = Containers::<i64>::new(10, 5).ok().unwrap();
    assert_eq!(buffer.get(-1), Err(SimError::NegativeAmount));
    assert_eq!(buffer.put(-1), Err(SimError::NegativeAmount));
    assert_eq!(*buffer.level(), 5);
}

#[test]
fn a_buffer_refuses_a_level_outside_its_capacity() {
    assert!(matches!(Containers::<i64>::new(10, 11), Err(SimError::InvalidParameters)));
    assert!(matches!(Containers::<i64>::new(10, -1), Err(SimError::InvalidParameters)));
    assert!(matches!(Containers::<i64>::new(-1, -1), Err(SimError::InvalidParameters)));
    assert!(matches!(Containers::<u16>::new(0, 1), Err(SimError::InvalidParameters)));
    assert!(Containers::<i64>::new(10, 10).is_ok());
    assert!(Containers::<i64>::new(10, 0).is_ok());
    assert!(Containers::<usize>::new(0, 0).is_ok());
}

#[test]
fn the_integers_add_and_subtract() {
    assert_eq!(Arithmetic::add(&3i8, 4), 7);
    assert_eq!(Arithmetic::sub(&3i8, 4), -1);
    assert_eq!(Arithmetic::add(&300i16, -1), 299);
    assert_eq!(Arithmetic::sub(&300i16, 301), -1);
    assert_eq!(Arithmetic::add(&-5i32, 5), 0);
    assert_eq!(Arithmetic::sub(&-5i32, 5), -10);
    assert_eq!(Arithmetic::add(&(1i64 << 40), 1), (1i64 << 40) + 1);
    assert_eq!(Arithmetic::sub(&0i64, 1), -1);
    assert_eq!(Arithmetic::add(&7isize, 8), 15);
    assert_eq!(Arithmetic::sub(&7isize, 8), -1);
    assert_eq!(Arithmetic::add(&200u8, 55), 255);
    assert_eq!(Arithmetic::sub(&200u8, 200), 0);
    assert_eq!(Arithmetic::add(&1u16, 2), 3);
    assert_eq!(Arithmetic::sub(&3u16, 2), 1);
    assert_eq!(Arithmetic::add(&1u32, 2), 3);
    assert_eq!(Arithmetic::sub(&3u32, 2), 1);
    assert_eq!(Arithmetic::add(&(u64::MAX - 1), 1), u64::MAX);
    assert_eq!(Arithmetic::sub(&u64::MAX, u64::MAX), 0);
    assert_eq!(Arithmetic::add(&1usize, 2), 3);
    assert_eq!(Arithmetic::sub(&3usize, 2), 1);
}

#[test]
fn a_fresh_queue_is_empty() {
    let queue = Stores::<u32>::new(4);
    assert_eq!(queue.capacity(), 4);
    assert_eq!(queue.len(), 0);
    assert_eq!(queue.waiting_gets(), 0);
    assert_eq!(queue.waiting_puts(), 0);
    assert!(queue.items().is_empty());
}

#[test]
fn a_queue_hands_out_its_items_oldest_first() {
    let mut queue = Stores::<u32>::new(3);
    assert!(matches!(queue.put(event(0, 0, 10)), Ok(None)));
    assert!(matches!(queue.put(event(1, 1, 11)), Ok(None)));
    assert!(matches!(queue.put(event(1, 0, 12)), Ok(None)));
    assert_eq!(queue.len(), 3);
    assert_eq!(queue.items().iter().map(fields).collect::<Vec<_>>(), vec![(0, 0, 10), (1, 1, 11), (1, 0, 12)]);
    assert_eq!(granted(queue.get(event(5, 7, 0))), Some((5, 7, 10)));
    assert_eq!(granted(queue.get(event(6, 8, 0))), Some((6, 8, 11)));
    assert_eq!(granted(queue.get(event(6, 7, 0))), Some((6, 7, 12)));
    assert_eq!(queue.len(), 0);
}

#[test]
fn a_full_queue_parks_producers_and_admits_them_as_room_appears() {
    let mut queue = Stores::<u32>::new(1);
    assert!(matches!(queue.put(event(0, 0, 10)), Ok(None)));
    assert!(matches!(queue.put(event(1, 1, 11)), Err(Blocked)));
    assert!(matches!(queue.put(event(2, 2, 12)), Err(Blocked)));
    assert_eq!((queue.len(), queue.waiting_puts()), (1, 2));
    assert_eq!(granted(queue.get(event(3, 9, 0))), Some((3, 9, 10)));
    assert_eq!((queue.len(), queue.waiting_puts()), (1, 1));
    assert_eq!(queue.items().iter().map(fields).collect::<Vec<_>>(), vec![(1, 1, 11)]);
    assert_eq!(granted(queue.get(event(4, 9, 0))), Some((4, 9, 11)));
    assert_eq!(granted(queue.get(event(5, 9, 0))), Some((5, 9, 12)));
    assert_eq!((queue.len(), queue.waiting_puts()), (0, 0));
}

#[test]
fn an_empty_queue_parks_consumers_and_serves_them_in_the_order_they_came() {
    let mut queue = Stores::<u32>::new(2);
    assert!(matches!(queue.get(event(0, 5, 50)), Err(Blocked)));
    assert!(matches!(queue.get(event(1, 6, 60)), Err(Blocked)));
    assert_eq!((queue.len(), queue.waiting_gets()), (0, 2));
    assert_eq!(woken(queue.put(event(3, 0, 10))), Some((3, 5, 10)));
    assert_eq!((queue.len(), queue.waiting_gets()), (0, 1));
    assert_eq!(woken(queue.put(event(4, 0, 11))), Some((4, 6, 11)));
    assert_eq!((queue.len(), queue.waiting_gets()), (0, 0));
    assert_eq!(woken(queue.put(event(5, 0, 12))), None);
    assert_eq!(queue.len(), 1);
}

#[test]
fn a_queue_without_room_buffers_nothing() {
    let mut queue = Stores::<u32>::new(0);
    assert!(matches!(queue.put(event(0, 0, 10)), Err(Blocked)));
    assert!(matches!(queue.get(event(1, 1, 0)), Err(Blocked)));
    assert_eq!((queue.len(), queue.waiting_gets(), queue.waiting_puts()), (0, 1, 1));
    assert_eq!(woken(queue.put(event(2, 2, 12))), Some((2, 1, 12)));
    assert_eq!((queue.len(), queue.waiting_gets(), queue.waiting_puts()), (0, 0, 1));
}
