//! The queue of pending events: ordered by time, and first in first out among
//! events that are due at the same time.

use crate::environment::Event;
use std::collections::VecDeque;
use vstd::prelude::*;

verus! {

/// No event of `s` stands before one that is due earlier.
pub open spec fn in_time_order<T>(s: Seq<Event<T>>) -> bool {
    forall|i: int, j: int| 0 <= i <= j < s.len() ==> s[i].time <= s[j].time
}

/// The number of events of `s` that are due at `t` or before.
pub open spec fn due_by<T>(s: Seq<Event<T>>, t: u64) -> nat
    decreases s.len(),
{
    if s.len() == 0 {
        0
    } else {
        due_by(s.drop_first(), t) + if s[0].time <= t {
            1nat
        } else {
            0nat
        }
    }
}

/// The queue `s` after `event` has been scheduled: the event stands behind
/// every event that is due at its time or before, and ahead of every later one.
pub open spec fn scheduled<T>(s: Seq<Event<T>>, event: Event<T>) -> Seq<Event<T>> {
    s.insert(due_by(s, event.time) as int, event)
}

/// In a queue in time order, the events due by `t` are exactly the first `k`,
/// where `k` parts the events due by `t` from the later ones.
pub proof fn lemma_due_by_is_boundary<T>(s: Seq<Event<T>>, t: u64, k: int)
    requires
        0 <= k <= s.len(),
        forall|i: int| 0 <= i < k ==> s[i].time <= t,
        forall|i: int| k <= i < s.len() ==> s[i].time > t,
    ensures
        due_by(s, t) == k,
    decreases s.len(),
{
    if s.len() > 0 {
        let rest = s.drop_first();
        if k == 0 {
            lemma_due_by_is_boundary(rest, t, 0);
        } else {
            lemma_due_by_is_boundary(rest, t, k - 1);
        }
    }
}

/// In a queue in time order, every event ahead of the place `due_by(s, t)` is
/// due by `t`, and every event from that place on is due later.
pub proof fn lemma_due_by_parts<T>(s: Seq<Event<T>>, t: u64)
    requires
        in_time_order(s),
    ensures
        due_by(s, t) <= s.len(),
        forall|i: int| 0 <= i < due_by(s, t) ==> s[i].time <= t,
        forall|i: int| due_by(s, t) <= i < s.len() ==> s[i].time > t,
    decreases s.len(),
{
    if s.len() > 0 {
        let rest = s.drop_first();
        assert(in_time_order(rest)) by {
            assert forall|i: int, j: int| 0 <= i <= j < rest.len() implies rest[i].time
                <= rest[j].time by {
                assert(s[i + 1].time <= s[j + 1].time);
            }
        }
        lemma_due_by_parts(rest, t);
        if s[0].time <= t {
            assert forall|i: int| 0 <= i < due_by(s, t) implies s[i].time <= t by {
                if i > 0 {
                    assert(s[i] == rest[i - 1]);
                }
            }
            assert forall|i: int| due_by(s, t) <= i < s.len() implies s[i].time > t by {
                assert(s[i] == rest[i - 1]);
            }
        } else {
            assert forall|i: int| 0 <= i < rest.len() implies rest[i].time > t by {
                assert(s[0].time <= s[i + 1].time);
            }
            lemma_due_by_is_boundary(rest, t, 0);
            assert forall|i: int| due_by(s, t) <= i < s.len() implies s[i].time > t by {
                assert(s[0].time <= s[i].time);
            }
        }
    }
}

/// Scheduling an event raises the number of events due by `t` by one where the
/// event is due by `t`, and leaves it as it was otherwise, wherever the event
/// is put.
pub proof fn lemma_due_by_insert<T>(s: Seq<Event<T>>, at: int, event: Event<T>, t: u64)
    requires
        0 <= at <= s.len(),
    ensures
        due_by(s.insert(at, event), t) == due_by(s, t) + if event.time <= t {
            1nat
        } else {
            0nat
        },
    decreases s.len(),
{
    let grown = s.insert(at, event);
    if at == 0 {
        assert(grown.drop_first() =~= s);
    } else {
        assert(grown.drop_first() =~= s.drop_first().insert(at - 1, event));
        assert(grown[0] == s[0]);
        lemma_due_by_insert(s.drop_first(), at - 1, event, t);
    }
}

/// Scheduling is stable. The queue stays in time order; the events that were
/// pending keep their order; and the new event stands behind every event that
/// is due at its time or before and ahead of every event that is due later. So
/// among events that are due at the same time, the one scheduled first leaves
/// the queue first.
pub proof fn lemma_scheduling_is_stable<T>(s: Seq<Event<T>>, event: Event<T>)
    requires
        in_time_order(s),
    ensures
        in_time_order(scheduled(s, event)),
        scheduled(s, event).len() == s.len() + 1,
        due_by(s, event.time) <= s.len(),
        scheduled(s, event)[due_by(s, event.time) as int] == event,
        scheduled(s, event).remove(due_by(s, event.time) as int) == s,
        forall|i: int|
            0 <= i < due_by(s, event.time) ==> scheduled(s, event)[i] == s[i] && s[i].time
                <= event.time,
        forall|i: int|
            due_by(s, event.time) <= i < s.len() ==> scheduled(s, event)[i + 1] == s[i]
                && s[i].time > event.time,
{
    let at = due_by(s, event.time) as int;
    let grown = scheduled(s, event);
    lemma_due_by_parts(s, event.time);
    assert(grown.remove(at) =~= s);
    assert forall|i: int, j: int| 0 <= i <= j < grown.len() implies grown[i].time
        <= grown[j].time by {
        if i < at && j > at {
            assert(grown[i] == s[i]);
            assert(grown[j] == s[j - 1]);
        } else if i < at && j < at {
            assert(s[i].time <= s[j].time);
        } else if i > at && j > at {
            assert(s[i - 1].time <= s[j - 1].time);
        } else if i == at && j > at {
            assert(grown[j] == s[j - 1]);
        } else if i < at && j == at {
            assert(grown[i] == s[i]);
        }
    }
}

/// Of two events that are due at the same time, the one scheduled first stands
/// ahead of the other, and so is dispatched first.
pub proof fn lemma_first_in_first_out<T>(s: Seq<Event<T>>, first: Event<T>, second: Event<T>)
    requires
        in_time_order(s),
        first.time == second.time,
    ensures
        ({
            let queue = scheduled(scheduled(s, first), second);
            let i = due_by(s, first.time) as int;
            let j = due_by(scheduled(s, first), second.time) as int;
            &&& 0 <= i < j < queue.len()
            &&& queue[i] == first
            &&& queue[j] == second
        }),
{
    let once = scheduled(s, first);
    lemma_scheduling_is_stable(s, first);
    lemma_scheduling_is_stable(once, second);
    lemma_due_by_insert(s, due_by(s, first.time) as int, first, second.time);
}

/// The pending events of a simulation.
pub struct EventQueue<T> {
    items: VecDeque<Event<T>>,
}

impl<T> View for EventQueue<T> {
    type V = Seq<Event<T>>;

    /// The pending events, the next one to be dispatched first.
    closed spec fn view(&self) -> Seq<Event<T>> {
        self.items@
    }
}

impl<T> EventQueue<T> {
    /// The invariant of the queue: its events stand in time order.
    pub open spec fn wf(&self) -> bool {
        in_time_order(self@)
    }

    /// A queue without events.
    pub fn new() -> (queue: Self)
        ensures
            queue.wf(),
            queue@ == Seq::<Event<T>>::empty(),
    {
        EventQueue { items: VecDeque::new() }
    }

    /// Schedules `event`.
    pub fn push(&mut self, event: Event<T>)
        requires
            old(self).wf(),
        ensures
            final(self).wf(),
            final(self)@ == scheduled(old(self)@, event),
    {
        let mut low: usize = 0;
        let mut high: usize = self.items.len();
        while low < high
            invariant
                0 <= low <= high <= self.items@.len(),
                self.items@ == old(self).items@,
                in_time_order(self.items@),
                forall|i: int| 0 <= i < low ==> self.items@[i].time <= event.time,
                forall|i: int| high <= i < self.items@.len() ==> self.items@[i].time > event.time,
            decreases high - low,
        {
            let mid: usize = low + (high - low) / 2;
            if self.items[mid].time <= event.time {
                assert forall|i: int| 0 <= i < mid + 1 implies self.items@[i].time
                    <= event.time by {
                    assert(self.items@[i].time <= self.items@[mid as int].time);
                }
                low = mid + 1;
            } else {
                assert forall|i: int| mid <= i < self.items@.len() implies self.items@[i].time
                    > event.time by {
                    assert(self.items@[mid as int].time <= self.items@[i].time);
                }
                high = mid;
            }
        }
        proof {
            lemma_due_by_is_boundary(self.items@, event.time, low as int);
            lemma_scheduling_is_stable(self.items@, event);
        }
        self.items.insert(low, event);
    }

    /// Takes the next event out of the queue: the earliest, and among the
    /// earliest the one that was scheduled first.
    pub fn pop(&mut self) -> (next: Option<Event<T>>)
        requires
            old(self).wf(),
        ensures
            final(self).wf(),
            old(self)@.len() == 0 ==> next is None && final(self)@ == old(self)@,
            old(self)@.len() > 0 ==> next == Some(old(self)@[0]) && final(self)@ == old(
                self,
            )@.drop_first(),
            forall|i: int| 0 <= i < final(self)@.len() ==> next->Some_0.time <= final(self)@[i].time,
    {
        let next = self.items.pop_front();
        proof {
            if old(self)@.len() > 0 {
                assert(self.items@ =~= old(self)@.drop_first());
                assert forall|i: int, j: int| 0 <= i <= j < self@.len() implies self@[i].time
                    <= self@[j].time by {
                    assert(old(self)@[i + 1].time <= old(self)@[j + 1].time);
                }
                assert forall|i: int| 0 <= i < self@.len() implies old(self)@[0].time
                    <= self@[i].time by {
                    assert(old(self)@[0].time <= old(self)@[i + 1].time);
                }
            }
        }
        next
    }

    /// Whether no event is pending.
    pub fn is_empty(&self) -> (b: bool)
        ensures
            b == (self@.len() == 0),
    {
        self.items.len() == 0
    }

    /// The number of pending events.
    pub fn len(&self) -> (n: usize)
        ensures
            n == self@.len(),
    {
        self.items.len()
    }

    /// The pending events, the next one to be dispatched first.
    pub fn events(&self) -> (events: &VecDeque<Event<T>>)
        ensures
            events@ == self@,
    {
        &self.items
    }
}

} // verus!
