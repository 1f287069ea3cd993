//! The shared resources that processes contend for: a pool of reusable units,
//! a bounded buffer of a commodity, and a bounded queue of items.
//!
//! No operation blocks. An operation that cannot be served at once parks the
//! requesting event inside the resource and says so in its result; a later
//! operation by another event hands the parked event back to the scheduler.

use crate::environment::Event;
use crate::error::SimError;
use std::collections::VecDeque;
use vstd::prelude::*;
use vstd::std_specs::cmp::PartialOrdIs;
use vstd::std_specs::cmp::PartialOrdSpec;

verus! {

/// The answer to a request that could not be served at once: the requesting
/// event now waits inside the resource.
#[derive(Clone, Copy, Debug, PartialEq, Eq, Structural)]
pub struct Blocked;

/// The event `event`, carrying the time `time` and the process `process_id`.
pub open spec fn rebadged<T>(event: Event<T>, time: u64, process_id: usize) -> Event<T> {
    Event { time, process_id, state: event.state }
}

/// What a pool holds, as plain values.
pub struct PoolView<T> {
    /// The number of units of the pool.
    pub capacity: nat,
    /// The number of units that nobody holds.
    pub available: nat,
    /// The number of units that were granted and not yet given back.
    pub holders: nat,
    /// The events that wait for a unit, the longest waiting first.
    pub waiters: Seq<Event<T>>,
}

impl<T> PoolView<T> {
    /// Every unit is either available or held, and nobody waits while a unit
    /// is available.
    pub open spec fn wf(self) -> bool {
        &&& self.available + self.holders == self.capacity
        &&& self.waiters.len() > 0 ==> self.available == 0
    }

    /// The pool after `event` has asked for a unit, and the answer it got.
    pub open spec fn request(self, event: Event<T>) -> (Self, Result<Event<T>, Blocked>) {
        if self.available > 0 {
            (
                PoolView {
                    available: (self.available - 1) as nat,
                    holders: self.holders + 1,
                    ..self
                },
                Ok(event),
            )
        } else {
            (PoolView { waiters: self.waiters.push(event), ..self }, Err(Blocked))
        }
    }

    /// The pool after a unit has been given back at the time of `event`, and
    /// the waiter that now holds the unit, if one was waiting.
    pub open spec fn release(self, event: Event<T>) -> (Self, Result<Option<Event<T>>, SimError>) {
        if self.waiters.len() > 0 {
            (
                PoolView { waiters: self.waiters.drop_first(), ..self },
                Ok(Some(rebadged(self.waiters[0], event.time, self.waiters[0].process_id))),
            )
        } else if self.available < self.capacity {
            (
                PoolView {
                    available: self.available + 1,
                    holders: (self.holders - 1) as nat,
                    ..self
                },
                Ok(None),
            )
        } else {
            (self, Err(SimError::Overflow))
        }
    }
}

/// A pool of indistinguishable units that events acquire and give back.
#[derive(Clone)]
pub struct Resources<T> {
    capacity: usize,
    left: usize,
    queue: VecDeque<Event<T>>,
    holders: Ghost<nat>,
}

impl<T> View for Resources<T> {
    type V = PoolView<T>;

    closed spec fn view(&self) -> PoolView<T> {
        PoolView {
            capacity: self.capacity as nat,
            available: self.left as nat,
            holders: self.holders@,
            waiters: self.queue@,
        }
    }
}

impl<T> Resources<T> {
    /// The invariant of a pool.
    pub open spec fn wf(&self) -> bool {
        self@.wf()
    }

    /// A pool of `capacity` units, all of them available.
    pub fn new(capacity: usize) -> (pool: Self)
        ensures
            pool.wf(),
            pool@ == (PoolView::<T> {
                capacity: capacity as nat,
                available: capacity as nat,
                holders: 0,
                waiters: Seq::empty(),
            }),
    {
        Resources { capacity, left: capacity, queue: VecDeque::new(), holders: Ghost(0) }
    }

    /// Asks for one unit on behalf of `event`. Where a unit is available it is
    /// granted and the event comes back; otherwise the event joins the waiters.
    pub fn request(&mut self, event: Event<T>) -> (r: Result<Event<T>, Blocked>)
        requires
            old(self).wf(),
        ensures
            final(self).wf(),
            final(self)@ == old(self)@.request(event).0,
            r == old(self)@.request(event).1,
    {
        if self.left > 0 {
            self.left = self.left - 1;
            proof {
                self.holders@ = self.holders@ + 1;
            }
            Ok(event)
        } else {
            self.queue.push_back(event);
            Err(Blocked)
        }
    }

    /// Gives one unit back at the time of `event`. Where an event waits, the
    /// unit passes to the one that has waited longest, which comes back
    /// carrying that time; otherwise the unit becomes available. A pool with no
    /// unit outstanding refuses.
    pub fn release(&mut self, event: Event<T>) -> (r: Result<Option<Event<T>>, SimError>)
        requires
            old(self).wf(),
        ensures
            final(self).wf(),
            final(self)@ == old(self)@.release(event).0,
            r == old(self)@.release(event).1,
    {
        let time = event.time;
        match self.queue.pop_front() {
            Some(waiter) => {
                assert(self.queue@ =~= old(self).queue@.drop_first());
                Ok(Some(Event { time, process_id: waiter.process_id, state: waiter.state }))
            },
            None => {
                if self.left < self.capacity {
                    self.left = self.left + 1;
                    proof {
                        self.holders@ = (self.holders@ - 1) as nat;
                    }
                    Ok(None)
                } else {
                    Err(SimError::Overflow)
                }
            },
        }
    }

    /// The number of units of the pool.
    pub fn capacity(&self) -> (n: usize)
        ensures
            n == self@.capacity,
    {
        self.capacity
    }

    /// The number of units that nobody holds.
    pub fn available(&self) -> (n: usize)
        ensures
            n == self@.available,
    {
        self.left
    }

    /// The number of events that wait for a unit.
    pub fn waiting(&self) -> (n: usize)
        ensures
            n == self@.waiters.len(),
    {
        self.queue.len()
    }
}

/// What a queue holds, as plain values.
pub struct QueueView<T> {
    /// The number of items that the queue can buffer.
    pub capacity: nat,
    /// The buffered items, the oldest first.
    pub items: Seq<Event<T>>,
    /// The consumers that wait for an item, the longest waiting first.
    pub pending_gets: Seq<Event<T>>,
    /// The producers that wait for room, the longest waiting first.
    pub pending_puts: Seq<Event<T>>,
}

impl<T> QueueView<T> {
    /// The buffer is within its capacity, a consumer waits only while the buffer
    /// is empty, and a producer waits only while it is full.
    pub open spec fn wf(self) -> bool {
        &&& self.items.len() <= self.capacity
        &&& self.pending_gets.len() > 0 ==> self.items.len() == 0
        &&& self.pending_puts.len() > 0 ==> self.items.len() == self.capacity
    }

    /// The items after the oldest has left and the longest waiting producer,
    /// if there is one, has been admitted.
    pub open spec fn refilled(self) -> Seq<Event<T>> {
        if self.pending_puts.len() > 0 {
            self.items.drop_first().push(self.pending_puts[0])
        } else {
            self.items.drop_first()
        }
    }

    /// The queue after `event` has asked for an item, and the answer it got.
    pub open spec fn get(self, event: Event<T>) -> (Self, Result<Event<T>, Blocked>) {
        if self.items.len() > 0 {
            (
                QueueView {
                    items: self.refilled(),
                    pending_puts: if self.pending_puts.len() > 0 {
                        self.pending_puts.drop_first()
                    } else {
                        self.pending_puts
                    },
                    ..self
                },
                Ok(rebadged(self.items[0], event.time, event.process_id)),
            )
        } else {
            (QueueView { pending_gets: self.pending_gets.push(event), ..self }, Err(Blocked))
        }
    }

    /// The queue after `event` has offered its payload as an item, and the
    /// answer it got.
    pub open spec fn put(self, event: Event<T>) -> (Self, Result<Option<Event<T>>, Blocked>) {
        if self.pending_gets.len() > 0 {
            (
                QueueView { pending_gets: self.pending_gets.drop_first(), ..self },
                Ok(Some(rebadged(event, event.time, self.pending_gets[0].process_id))),
            )
        } else if self.items.len() < self.capacity {
            (QueueView { items: self.items.push(event), ..self }, Ok(None))
        } else {
            (QueueView { pending_puts: self.pending_puts.push(event), ..self }, Err(Blocked))
        }
    }
}

/// A first-in first-out queue of items with a capacity, where consumers wait
/// for items and producers wait for room.
#[derive(Clone)]
pub struct Stores<T> {
    capacity: usize,
    gets: VecDeque<Event<T>>,
    puts: VecDeque<Event<T>>,
    state: VecDeque<Event<T>>,
}

impl<T> View for Stores<T> {
    type V = QueueView<T>;

    closed spec fn view(&self) -> QueueView<T> {
        QueueView {
            capacity: self.capacity as nat,
            items: self.state@,
            pending_gets: self.gets@,
            pending_puts: self.puts@,
        }
    }
}

impl<T> Stores<T> {
    /// The invariant of a queue.
    pub open spec fn wf(&self) -> bool {
        self@.wf()
    }

    /// An empty queue that buffers up to `capacity` items.
    pub fn new(capacity: usize) -> (queue: Self)
        ensures
            queue.wf(),
            queue@ == (QueueView::<T> {
                capacity: capacity as nat,
                items: Seq::empty(),
                pending_gets: Seq::empty(),
                pending_puts: Seq::empty(),
            }),
    {
        Stores { capacity, gets: VecDeque::new(), puts: VecDeque::new(), state: VecDeque::new() }
    }

    /// Asks for the oldest item on behalf of `event`. Where an item is buffered
    /// it comes back carrying the time and the process of `event`, and the
    /// longest waiting producer, if there is one, is admitted to the buffer;
    /// otherwise `event` joins the waiting consumers.
    pub fn get(&mut self, event: Event<T>) -> (r: Result<Event<T>, Blocked>)
        requires
            old(self).wf(),
        ensures
            final(self).wf(),
            final(self)@ == old(self)@.get(event).0,
            r == old(self)@.get(event).1,
    {
        let process_id = event.process_id;
        let time = event.time;
        match self.state.pop_front() {
            Some(item) => {
                assert(self.state@ =~= old(self).state@.drop_first());
                match self.puts.pop_front() {
                    Some(producer) => {
                        assert(self.puts@ =~= old(self).puts@.drop_first());
                        self.state.push_back(producer);
                    },
                    None => {},
                }
                Ok(Event { time, process_id, state: item.state })
            },
            None => {
                self.gets.push_back(event);
                Err(Blocked)
            },
        }
    }

    /// Offers the payload of `event` as an item. Where a consumer waits, the
    /// one that has waited longest takes the item at once: an event comes back
    /// that carries the payload, the time of `event` and the process of that
    /// consumer. Otherwise the item is buffered where there is room, and
    /// `event` joins the waiting producers where there is none.
    pub fn put(&mut self, event: Event<T>) -> (r: Result<Option<Event<T>>, Blocked>)
        requires
            old(self).wf(),
        ensures
            final(self).wf(),
            final(self)@ == old(self)@.put(event).0,
            r == old(self)@.put(event).1,
    {
        match self.gets.pop_front() {
            Some(consumer) => {
                assert(self.gets@ =~= old(self).gets@.drop_first());
                Ok(
                    Some(
                        Event {
                            time: event.time,
                            process_id: consumer.process_id,
                            state: event.state,
                        },
                    ),
                )
            },
            None => {
                if self.state.len() < self.capacity {
                    self.state.push_back(event);
                    Ok(None)
                } else {
                    self.puts.push_back(event);
                    Err(Blocked)
                }
            },
        }
    }

    /// The number of items that the queue can buffer.
    pub fn capacity(&self) -> (n: usize)
        ensures
            n == self@.capacity,
    {
        self.capacity
    }

    /// The number of buffered items.
    pub fn len(&self) -> (n: usize)
        ensures
            n == self@.items.len(),
    {
        self.state.len()
    }

    /// The number of consumers that wait for an item.
    pub fn waiting_gets(&self) -> (n: usize)
        ensures
            n == self@.pending_gets.len(),
    {
        self.gets.len()
    }

    /// The number of producers that wait for room.
    pub fn waiting_puts(&self) -> (n: usize)
        ensures
            n == self@.pending_puts.len(),
    {
        self.puts.len()
    }

    /// The buffered items, the oldest first.
    pub fn items(&self) -> (items: &VecDeque<Event<T>>)
        ensures
            items@ == self@.items,
    {
        &self.state
    }
}

/// The mathematical integers, under a name that code outside a proof can
/// write in the header of a function that is never run.
pub type Int = int;

/// An ordered numeric type that a buffer can hold: it stands for integers, adds
/// and subtracts them, and its order, its default value and its clones agree
/// with the integers it stands for.
pub trait Arithmetic: Sized + Clone + Default + PartialOrd {
    /// The integer that the value stands for.
    spec fn number(&self) -> int;

    /// Whether the type has a value that stands for `n`.
    spec fn fits(n: int) -> bool;

    /// Every integer between two that the type holds is held by it too.
    proof fn law_between(low: Self, n: int, high: Self)
        requires
            low.number() <= n <= high.number(),
        ensures
            Self::fits(n),
    ;

    /// The default value stands for zero.
    proof fn law_zero(zero: Self)
        requires
            call_ensures(Self::default, (), zero),
        ensures
            zero.number() == 0,
    ;

    /// A clone is equal to the value it was made from.
    proof fn law_clone(a: Self, b: Self)
        requires
            cloned(a, b),
        ensures
            a == b,
    ;

    /// The order of the type is the order of the integers.
    proof fn law_order(a: Self, b: Self)
        ensures
            Self::obeys_partial_cmp_spec(),
            a.is_le(&b) <==> a.number() <= b.number(),
            a.is_lt(&b) <==> a.number() < b.number(),
            a.is_ge(&b) <==> a.number() >= b.number(),
            a.is_gt(&b) <==> a.number() > b.number(),
    ;

    /// The sum of two values, where the type holds it.
    fn add(&self, other: Self) -> (sum: Self)
        requires
            Self::fits(self.number() + other.number()),
        ensures
            sum.number() == self.number() + other.number(),
    ;

    /// The difference of two values, where the type holds it.
    fn sub(&self, other: Self) -> (difference: Self)
        requires
            Self::fits(self.number() - other.number()),
        ensures
            difference.number() == self.number() - other.number(),
    ;
}

impl Arithmetic for i8 {
    open spec fn number(&self) -> int {
        *self as int
    }

    open spec fn fits(n: int) -> bool {
        i8::MIN <= n <= i8::MAX
    }

    proof fn law_between(low: Self, n: int, high: Self) {
    }

    proof fn law_zero(zero: Self) {
    }

    proof fn law_clone(a: Self, b: Self) {
    }

    proof fn law_order(a: Self, b: Self) {
    }

    fn add(&self, other: i8) -> i8 {
        *self + other
    }

    fn sub(&self, other: i8) -> i8 {
        *self - other
    }
}

impl Arithmetic for i16 {
    open spec fn number(&self) -> int {
        *self as int
    }

    open spec fn fits(n: int) -> bool {
        i16::MIN <= n <= i16::MAX
    }

    proof fn law_between(low: Self, n: int, high: Self) {
    }

    proof fn law_zero(zero: Self) {
    }

    proof fn law_clone(a: Self, b: Self) {
    }

    proof fn law_order(a: Self, b: Self) {
    }

    fn add(&self, other: i16) -> i16 {
        *self + other
    }

    fn sub(&self, other: i16) -> i16 {
        *self - other
    }
}

impl Arithmetic for i32 {
    open spec fn number(&self) -> int {
        *self as int
    }

    open spec fn fits(n: int) -> bool {
        i32::MIN <= n <= i32::MAX
    }

    proof fn law_between(low: Self, n: int, high: Self) {
    }

    proof fn law_zero(zero: Self) {
    }

    proof fn law_clone(a: Self, b: Self) {
    }

    proof fn law_order(a: Self, b: Self) {
    }

    fn add(&self, other: i32) -> i32 {
        *self + other
    }

    fn sub(&self, other: i32) -> i32 {
        *self - other
    }
}

impl Arithmetic for i64 {
    open spec fn number(&self) -> int {
        *self as int
    }

    open spec fn fits(n: int) -> bool {
        i64::MIN <= n <= i64::MAX
    }

    proof fn law_between(low: Self, n: int, high: Self) {
    }

    proof fn law_zero(zero: Self) {
    }

    proof fn law_clone(a: Self, b: Self) {
    }

    proof fn law_order(a: Self, b: Self) {
    }

    fn add(&self, other: i64) -> i64 {
        *self + other
    }

    fn sub(&self, other: i64) -> i64 {
        *self - other
    }
}

impl Arithmetic for isize {
    open spec fn number(&self) -> int {
        *self as int
    }

    open spec fn fits(n: int) -> bool {
        isize::MIN <= n <= isize::MAX
    }

    proof fn law_between(low: Self, n: int, high: Self) {
    }

    proof fn law_zero(zero: Self) {
    }

    proof fn law_clone(a: Self, b: Self) {
    }

    proof fn law_order(a: Self, b: Self) {
    }

    fn add(&self, other: isize) -> isize {
        *self + other
    }

    fn sub(&self, other: isize) -> isize {
        *self - other
    }
}

impl Arithmetic for u8 {
    open spec fn number(&self) -> int {
        *self as int
    }

    open spec fn fits(n: int) -> bool {
        u8::MIN <= n <= u8::MAX
    }

    proof fn law_between(low: Self, n: int, high: Self) {
    }

    proof fn law_zero(zero: Self) {
    }

    proof fn law_clone(a: Self, b: Self) {
    }

    proof fn law_order(a: Self, b: Self) {
    }

    fn add(&self, other: u8) -> u8 {
        *self + other
    }

    fn sub(&self, other: u8) -> u8 {
        *self - other
    }
}

impl Arithmetic for u16 {
    open spec fn number(&self) -> int {
        *self as int
    }

    open spec fn fits(n: int) -> bool {
        u16::MIN <= n <= u16::MAX
    }

    proof fn law_between(low: Self, n: int, high: Self) {
    }

    proof fn law_zero(zero: Self) {
    }

    proof fn law_clone(a: Self, b: Self) {
    }

    proof fn law_order(a: Self, b: Self) {
    }

    fn add(&self, other: u16) -> u16 {
        *self + other
    }

    fn sub(&self, other: u16) -> u16 {
        *self - other
    }
}

impl Arithmetic for u32 {
    open spec fn number(&self) -> int {
        *self as int
    }

    open spec fn fits(n: int) -> bool {
        u32::MIN <= n <= u32::MAX
    }

    proof fn law_between(low: Self, n: int, high: Self) {
    }

    proof fn law_zero(zero: Self) {
    }

    proof fn law_clone(a: Self, b: Self) {
    }

    proof fn law_order(a: Self, b: Self) {
    }

    fn add(&self, other: u32) -> u32 {
        *self + other
    }

    fn sub(&self, other: u32) -> u32 {
        *self - other
    }
}

impl Arithmetic for u64 {
    open spec fn number(&self) -> int {
        *self as int
    }

    open spec fn fits(n: int) -> bool {
        u64::MIN <= n <= u64::MAX
    }

    proof fn law_between(low: Self, n: int, high: Self) {
    }

    proof fn law_zero(zero: Self) {
    }

    proof fn law_clone(a: Self, b: Self) {
    }

    proof fn law_order(a: Self, b: Self) {
    }

    fn add(&self, other: u64) -> u64 {
        *self + other
    }

    fn sub(&self, other: u64) -> u64 {
        *self - other
    }
}

impl Arithmetic for usize {
    open spec fn number(&self) -> int {
        *self as int
    }

    open spec fn fits(n: int) -> bool {
        usize::MIN <= n <= usize::MAX
    }

    proof fn law_between(low: Self, n: int, high: Self) {
    }

    proof fn law_zero(zero: Self) {
    }

    proof fn law_clone(a: Self, b: Self) {
    }

    proof fn law_order(a: Self, b: Self) {
    }

    fn add(&self, other: usize) -> usize {
        *self + other
    }

    fn sub(&self, other: usize) -> usize {
        *self - other
    }
}

/// What a buffer holds, as plain values.
pub struct BufferView {
    /// The most that the buffer can hold.
    pub capacity: int,
    /// What the buffer holds now.
    pub level: int,
}

impl BufferView {
    /// The level is neither negative nor above the capacity.
    pub open spec fn wf(self) -> bool {
        0 <= self.level <= self.capacity
    }

    /// The buffer after `amount` has been asked of it, and the answer:
    /// the amount drawn, or why nothing was drawn.
    pub open spec fn get(self, amount: int) -> (Self, Result<int, SimError>) {
        if amount < 0 {
            (self, Err(SimError::NegativeAmount))
        } else if self.level < amount {
            (self, Err(SimError::ResourceUnderflow))
        } else {
            (BufferView { level: self.level - amount, ..self }, Ok(amount))
        }
    }

    /// The buffer after `amount` has been offered to it: what exceeds the
    /// capacity is discarded.
    pub open spec fn put(self, amount: int) -> (Self, Result<(), SimError>) {
        if amount < 0 {
            (self, Err(SimError::NegativeAmount))
        } else if self.level + amount > self.capacity {
            (BufferView { level: self.capacity, ..self }, Ok(()))
        } else {
            (BufferView { level: self.level + amount, ..self }, Ok(()))
        }
    }
}

/// A bounded buffer of one commodity, measured in a numeric type.
#[derive(Clone)]
pub struct Containers<T> {
    container_capacity: T,
    level: T,
}

impl<T: Arithmetic> View for Containers<T> {
    type V = BufferView;

    closed spec fn view(&self) -> BufferView {
        BufferView { capacity: self.container_capacity.number(), level: self.level.number() }
    }
}

impl<T: Clone + Default + PartialOrd + Arithmetic> Containers<T> {
    /// The invariant of a buffer.
    pub open spec fn wf(&self) -> bool {
        self@.wf()
    }

    /// A buffer that can hold `capacity` and holds `init`. A level that is
    /// negative or above the capacity is refused.
    pub fn new(capacity: T, init: T) -> (r: Result<Self, SimError>)
        ensures
            0 <= init.number() <= capacity.number() ==> r is Ok && r->Ok_0.wf() && r->Ok_0@ == (
            BufferView { capacity: capacity.number(), level: init.number() }),
            !(0 <= init.number() <= capacity.number()) ==> r is Err && r->Err_0
                == SimError::InvalidParameters,
    {
        let zero = T::default();
        proof {
            T::law_zero(zero);
            T::law_order(init, zero);
            T::law_order(init, capacity);
        }
        if init >= zero && init <= capacity {
            Ok(Containers { container_capacity: capacity, level: init })
        } else {
            Err(SimError::InvalidParameters)
        }
    }

    /// Draws `amount` from the buffer. A negative amount is refused, and so is
    /// one above the level; neither changes the buffer.
    pub fn get(&mut self, amount: T) -> (r: Result<T, SimError>)
        requires
            old(self).wf(),
        ensures
            final(self).wf(),
            final(self)@ == old(self)@.get(amount.number()).0,
            match r {
                Ok(drawn) => drawn == amount && old(self)@.get(amount.number()).1 == Ok::<
                    int,
                    SimError,
                >(amount.number()),
                Err(e) => old(self)@.get(amount.number()).1 == Err::<int, SimError>(e),
            },
    {
        let zero = T::default();
        proof {
            T::law_zero(zero);
            T::law_order(amount, zero);
            T::law_order(self.level, amount);
        }
        if amount >= zero {
            if self.level >= amount {
                let drawn = amount.clone();
                proof {
                    T::law_clone(amount, drawn);
                    T::law_between(zero, self.level.number() - amount.number(), self.level);
                }
                let rest = self.level.sub(amount);
                self.level = rest;
                Ok(drawn)
            } else {
                Err(SimError::ResourceUnderflow)
            }
        } else {
            Err(SimError::NegativeAmount)
        }
    }

    /// Adds `amount` to the buffer, up to its capacity: what exceeds the
    /// capacity is discarded. A negative amount is refused.
    pub fn put(&mut self, amount: T) -> (r: Result<(), SimError>)
        requires
            old(self).wf(),
        ensures
            final(self).wf(),
            final(self)@ == old(self)@.put(amount.number()).0,
            r == old(self)@.put(amount.number()).1,
    {
        let zero = T::default();
        proof {
            T::law_zero(zero);
            T::law_order(amount, zero);
        }
        if amount >= zero {
            let held = self.level.clone();
            proof {
                T::law_clone(self.level, held);
                T::law_between(
                    zero,
                    self.container_capacity.number() - held.number(),
                    self.container_capacity,
                );
            }
            let room = self.container_capacity.sub(held);
            proof {
                T::law_order(amount, room);
            }
            if amount > room {
                let full = self.container_capacity.clone();
                proof {
                    T::law_clone(self.container_capacity, full);
                }
                self.level = full;
            } else {
                proof {
                    T::law_between(
                        self.level,
                        self.level.number() + amount.number(),
                        self.container_capacity,
                    );
                }
                let raised = self.level.add(amount);
                self.level = raised;
            }
            Ok(())
        } else {
            Err(SimError::NegativeAmount)
        }
    }

    /// What the buffer holds now.
    pub fn level(&self) -> (level: &T)
        ensures
            level.number() == self@.level,
    {
        &self.level
    }

    /// The most that the buffer can hold.
    pub fn capacity(&self) -> (capacity: &T)
        ensures
            capacity.number() == self@.capacity,
    {
        &self.container_capacity
    }
}

} // verus!
