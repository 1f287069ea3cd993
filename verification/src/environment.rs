//! Events, intents, processes, and the environment that dispatches them.

use crate::distribution::seeded_rng;
use crate::distribution::Distribution;
use crate::error::SimError;
use crate::kernel::Answer;
use crate::kernel::Call;
use crate::kernel::Kernel;
use crate::kernel::ProcessView;
use crate::kernel::Step;
use crate::resources::Arithmetic;
use crate::resources::BufferView;
use crate::resources::Containers;
use crate::resources::PoolView;
use crate::resources::QueueView;
use crate::resources::Resources;
use crate::resources::Stores;
use crate::schedule::EventQueue;
use rand::rngs::StdRng;
use std::cmp::Ordering;
use std::collections::BTreeMap;
use vstd::prelude::*;
use vstd::std_specs::cmp::PartialEqSpecImpl;
use vstd::std_specs::cmp::PartialOrdSpecImpl;

verus! {

/// A scheduled resumption of a process.
pub struct Event<T> {
    /// The time at which the event is due.
    pub time: u64,
    /// The process that the event resumes.
    pub process_id: usize,
    /// The payload that the process is resumed with.
    pub state: T,
}

impl<T: Clone> Clone for Event<T> {
    fn clone(&self) -> (copy: Self)
        ensures
            copy.time == self.time,
            copy.process_id == self.process_id,
            cloned(self.state, copy.state),
    {
        Event { time: self.time, process_id: self.process_id, state: self.state.clone() }
    }
}

impl<T> PartialEq for Event<T> {
    /// Whether the two events are due at the same time.
    fn eq(&self, other: &Self) -> (same: bool) {
        self.time == other.time
    }
}

impl<T> PartialEqSpecImpl for Event<T> {
    open spec fn obeys_eq_spec() -> bool {
        true
    }

    open spec fn eq_spec(&self, other: &Self) -> bool {
        self.time == other.time
    }
}

impl<T> PartialOrd for Event<T> {
    /// The order of the times at which the two events are due.
    fn partial_cmp(&self, other: &Self) -> (order: Option<Ordering>) {
        if self.time < other.time {
            Some(Ordering::Less)
        } else if self.time > other.time {
            Some(Ordering::Greater)
        } else {
            Some(Ordering::Equal)
        }
    }
}

impl<T> PartialOrdSpecImpl for Event<T> {
    open spec fn obeys_partial_cmp_spec() -> bool {
        true
    }

    open spec fn partial_cmp_spec(&self, other: &Self) -> Option<Ordering> {
        if self.time < other.time {
            Some(Ordering::Less)
        } else if self.time > other.time {
            Some(Ordering::Greater)
        } else {
            Some(Ordering::Equal)
        }
    }
}

/// What a process is resumed with.
#[derive(Clone)]
pub struct State<T> {
    /// The payload of the event that resumes the process.
    pub state: T,
    /// The time of the resumption.
    pub time: u64,
    /// Why the buffer refused what the process last asked of it, if it did.
    pub error: Option<SimError>,
}

/// What a process asks of the scheduler when it yields.
#[derive(Clone, Copy, Debug, PartialEq, Eq, Structural)]
pub enum Yield {
    /// Resume this process once more after the given delay.
    Timeout(u64),
    /// Do not resume this process until another event wakes it.
    Pause,
    /// Resume another process after a delay.
    AddEvent {
        /// The delay, in ticks.
        time_delta: u64,
        /// The process to resume.
        process_id: usize,
    },
    /// Acquire one unit of a pool.
    RequestResource(usize),
    /// Give one unit back to a pool.
    ReleaseResource(usize),
    /// Draw the yielded amount from a buffer.
    GetContainer(usize),
    /// Add the yielded amount to a buffer.
    PutContainer(usize),
    /// Take the oldest item of a queue.
    GetStore(usize),
    /// Append the yielded value to a queue.
    PutStore(usize),
}

/// A value that a process yields: it carries the intent of the process.
pub trait EventYield {
    /// The intent that the value carries.
    fn output(&self) -> Yield;

    /// Replaces the intent that the value carries.
    fn set(&mut self, output: Yield);
}

impl EventYield for Yield {
    fn output(&self) -> (intent: Yield)
        ensures
            intent == *self,
    {
        *self
    }

    fn set(&mut self, output: Yield)
        ensures
            *final(self) == output,
    {
        *self = output;
    }
}

/// What a resumed process answers.
pub enum Outcome<T> {
    /// The process yields a value and waits to be resumed.
    Yielded(T),
    /// The process has run to its end and must not be resumed again.
    Complete,
}

/// A resumable computation. Each resumption runs the process to its next
/// yield or to its end. Nothing is promised of what it answers.
pub trait Process<T> {
    /// Runs the process from where it last yielded.
    fn resume(&mut self, input: State<T>) -> Outcome<T>;
}

/// A rule that gives the delay to the next event of a process from the current
/// time. Nothing is promised of the delay.
pub trait TimeDelta {
    /// The delay, in ticks, to the event that follows the one at `now`.
    fn delta(&self, now: u64) -> u64;
}

/// The window of time in which a process runs.
#[derive(Clone, Copy, Debug, PartialEq, Eq, Structural)]
pub enum ProcessDuration {
    /// From the given time until the simulation ends.
    Infinite(u64),
    /// From the first given time to the second, both included.
    Finite(u64, u64),
}

impl ProcessDuration {
    /// The time at which the window opens.
    pub open spec fn start(self) -> u64 {
        match self {
            ProcessDuration::Infinite(start) => start,
            ProcessDuration::Finite(start, _) => start,
        }
    }

    /// Whether `t` lies in the window.
    pub open spec fn admits(self, t: u64) -> bool {
        match self {
            ProcessDuration::Infinite(start) => start <= t,
            ProcessDuration::Finite(start, end) => start <= t <= end,
        }
    }

    /// Whether `t` lies in the window.
    pub fn contains(&self, t: u64) -> (b: bool)
        ensures
            b == self.admits(t),
    {
        match self {
            ProcessDuration::Infinite(start) => *start <= t,
            ProcessDuration::Finite(start, end) => *start <= t && t <= *end,
        }
    }
}

/// How a process paces itself: where the delay to its next event comes from,
/// and in which window of time it runs.
pub enum ProcessExecution {
    /// The process is resumed once, at the time of its registration.
    Standard,
    /// The next event follows after a constant delay.
    Constant(u64, ProcessDuration),
    /// The next event follows after a delay computed from the current time.
    Deterministic(Box<dyn TimeDelta>, ProcessDuration),
    /// The next event follows after a delay drawn from a distribution.
    Stochastic(Box<dyn Distribution>, ProcessDuration),
}

impl ProcessExecution {
    /// The window of the process, where it has one.
    pub open spec fn window(self) -> Option<ProcessDuration> {
        match self {
            ProcessExecution::Standard => None,
            ProcessExecution::Constant(_, duration) => Some(duration),
            ProcessExecution::Deterministic(_, duration) => Some(duration),
            ProcessExecution::Stochastic(_, duration) => Some(duration),
        }
    }

    /// Whether the process may be resumed at `t`.
    pub open spec fn admits(self, t: u64) -> bool {
        match self.window() {
            None => true,
            Some(duration) => duration.admits(t),
        }
    }

    /// The time of the first event of a process registered at `now`.
    pub open spec fn first_time(self, now: u64) -> u64 {
        match self.window() {
            None => now,
            Some(duration) => duration.start(),
        }
    }

    /// Whether `delta` can be the delay to the next event: a process that runs
    /// once has none, and a constant delay is the one given.
    pub open spec fn allows(self, delta: u64) -> bool {
        match self {
            ProcessExecution::Standard => delta == 0,
            ProcessExecution::Constant(constant, _) => delta == constant,
            _ => true,
        }
    }

    /// Whether `t` lies in the window of the process.
    pub fn contains(&self, t: u64) -> (b: bool)
        ensures
            b == self.admits(t),
    {
        match self {
            ProcessExecution::Standard => true,
            ProcessExecution::Constant(_, duration) => duration.contains(t),
            ProcessExecution::Deterministic(_, duration) => duration.contains(t),
            ProcessExecution::Stochastic(_, duration) => duration.contains(t),
        }
    }
}

/// A registered process: the computation, how it paces itself, and what the
/// environment remembers of it.
#[verifier::reject_recursive_types(T)]
pub struct SimProcess<T> {
    process: Box<dyn Process<T>>,
    time_delta: ProcessExecution,
    finished: bool,
    failure: Option<SimError>,
}

impl<T> View for SimProcess<T> {
    type V = ProcessView;

    closed spec fn view(&self) -> ProcessView {
        ProcessView { policy: self.time_delta, finished: self.finished, failure: self.failure }
    }
}

impl<T> SimProcess<T> {
    fn new(process: Box<dyn Process<T>>, time_delta: ProcessExecution) -> (slot: Self)
        ensures
            slot@ == (ProcessView { policy: time_delta, finished: false, failure: None }),
    {
        SimProcess { process, time_delta, finished: false, failure: None }
    }
}

/// Whether `state` is a value that `T::default` can return.
pub open spec fn is_default<T: Default>(state: T) -> bool {
    call_ensures(T::default, (), state)
}

/// A copy of `value`.
fn duplicate<T: Arithmetic>(value: &T) -> (copy: T)
    ensures
        copy == *value,
{
    let copy = value.clone();
    proof {
        T::law_clone(*value, copy);
    }
    copy
}

/// The simulation: a clock, the pending events, the registered processes and
/// the resources they contend for.
#[verifier::reject_recursive_types(T)]
pub struct Environment<T: EventYield + Clone> {
    events: EventQueue<T>,
    past_events: Vec<Event<T>>,
    yields: Vec<BTreeMap<u64, T>>,
    processes: Vec<SimProcess<T>>,
    stores: Vec<Stores<T>>,
    containers: Vec<Containers<T>>,
    resources: Vec<Resources<T>>,
    time: u64,
    stop: u64,
    rng: StdRng,
    seed: u64,
    logs: bool,
    dispatched: Ghost<Seq<Event<T>>>,
    samples: Ghost<nat>,
    handed: Ghost<Seq<Call<T>>>,
}

impl<T: EventYield + Clone + Default + PartialOrd + Arithmetic> View for Environment<T> {
    type V = Kernel<T>;

    closed spec fn view(&self) -> Kernel<T> {
        Kernel {
            time: self.time,
            stop: self.stop,
            logs: self.logs,
            seed: self.seed,
            rng: self.rng,
            handed: self.handed@,
            events: self.events@,
            dispatched: self.dispatched@,
            samples: self.samples@,
            past_events: self.past_events@,
            yields: self.yields@.map_values(|log: BTreeMap<u64, T>| log@),
            processes: self.processes@.map_values(|slot: SimProcess<T>| slot@),
            resources: self.resources@.map_values(|pool: Resources<T>| pool@),
            containers: self.containers@.map_values(|buffer: Containers<T>| buffer@),
            stores: self.stores@.map_values(|queue: Stores<T>| queue@),
        }
    }
}

impl<T: EventYield + Clone + Default + PartialOrd + Arithmetic> Environment<T> {
    /// The invariant of the environment.
    pub open spec fn wf(&self) -> bool {
        self@.wf()
    }

    /// An environment at time zero with the horizon `stop`, without events,
    /// processes or resources, whose random stream is seeded with `seed`.
    /// Logging is off. Nothing is said of what the random stream holds.
    pub fn new(stop: u64, seed: u64) -> (env: Self)
        ensures
            env.wf(),
            env@ == Kernel::<T>::initial(stop, seed, env@.rng),
    {
        let env = Environment {
            events: EventQueue::new(),
            past_events: Vec::new(),
            yields: Vec::new(),
            processes: Vec::new(),
            stores: Vec::new(),
            containers: Vec::new(),
            resources: Vec::new(),
            time: 0,
            stop,
            rng: seeded_rng(seed),
            seed,
            logs: false,
            dispatched: Ghost(Seq::empty()),
            samples: Ghost(0),
            handed: Ghost(Seq::empty()),
        };
        proof {
            assert(env@.yields =~= Seq::empty());
            assert(env@.processes =~= Seq::empty());
            assert(env@.resources =~= Seq::empty());
            assert(env@.containers =~= Seq::empty());
            assert(env@.stores =~= Seq::empty());
        }
        env
    }

    /// Turns the logging of dispatched events and yielded values on or off.
    pub fn set_logs(&mut self, logs: bool)
        requires
            old(self).wf(),
        ensures
            final(self).wf(),
            final(self)@ == (Kernel { logs, ..old(self)@ }),
    {
        self.logs = logs;
    }

    /// The current time.
    pub fn current_time(&self) -> (time: u64)
        ensures
            time == self@.time,
    {
        self.time
    }

    /// The horizon.
    pub fn horizon(&self) -> (stop: u64)
        ensures
            stop == self@.stop,
    {
        self.stop
    }

    /// The seed that the random stream was started from.
    pub fn seed(&self) -> (seed: u64)
        ensures
            seed == self@.seed,
    {
        self.seed
    }

    /// The logged events, in the order of their dispatch.
    pub fn history(&self) -> (log: &Vec<Event<T>>)
        ensures
            log@ == self@.past_events,
    {
        &self.past_events
    }

    /// Whether dispatched events and yielded values are logged.
    pub fn logs(&self) -> (logs: bool)
        ensures
            logs == self@.logs,
    {
        self.logs
    }

    /// The number of registered processes.
    pub fn process_count(&self) -> (n: usize)
        ensures
            n == self@.processes.len(),
    {
        proof {
            assert(self@.processes.len() == self.processes@.len());
        }
        self.processes.len()
    }

    /// The values that the process `id` yielded while logging was on, by the
    /// time at which it yielded them; nothing where no such process is
    /// registered.
    pub fn yields(&self, id: usize) -> (log: Option<&BTreeMap<u64, T>>)
        ensures
            id < self@.yields.len() ==> log is Some && log->Some_0@ == self@.yields[id as int],
            id >= self@.yields.len() ==> log is None,
    {
        if id < self.yields.len() {
            Some(&self.yields[id])
        } else {
            None
        }
    }

    /// A copy of the logs of yielded values, one for each process.
    pub fn yield_logs(&self) -> (logs: Vec<BTreeMap<u64, T>>)
        ensures
            logs@.len() == self@.yields.len(),
            forall|i: int| 0 <= i < logs@.len() ==> (#[trigger] logs@[i])@ == self@.yields[i],
    {
        let mut logs: Vec<BTreeMap<u64, T>> = Vec::new();
        let mut i: usize = 0;
        while i < self.yields.len()
            invariant
                0 <= i <= self.yields@.len(),
                logs@.len() == i,
                forall|j: int| 0 <= j < i ==> (#[trigger] logs@[j])@ == self.yields@[j]@,
            decreases self.yields@.len() - i,
        {
            logs.push(self.yields[i].clone());
            i = i + 1;
        }
        proof {
            assert forall|j: int| 0 <= j < logs@.len() implies (#[trigger] logs@[j])@
                == self@.yields[j] by {
                assert(self@.yields[j] == self.yields@[j]@);
            }
        }
        logs
    }

    /// The pool `id`; nothing where there is no such pool.
    pub fn resource(&self, id: usize) -> (pool: Option<&Resources<T>>)
        ensures
            id < self@.resources.len() ==> pool is Some && pool->Some_0@ == self@.resources[id as int],
            id >= self@.resources.len() ==> pool is None,
    {
        if id < self.resources.len() {
            Some(&self.resources[id])
        } else {
            None
        }
    }

    /// The buffer `id`; nothing where there is no such buffer.
    pub fn container(&self, id: usize) -> (buffer: Option<&Containers<T>>)
        ensures
            id < self@.containers.len() ==> buffer is Some && buffer->Some_0@
                == self@.containers[id as int],
            id >= self@.containers.len() ==> buffer is None,
    {
        if id < self.containers.len() {
            Some(&self.containers[id])
        } else {
            None
        }
    }

    /// The queue `id`; nothing where there is no such queue.
    pub fn store(&self, id: usize) -> (queue: Option<&Stores<T>>)
        ensures
            id < self@.stores.len() ==> queue is Some && queue->Some_0@ == self@.stores[id as int],
            id >= self@.stores.len() ==> queue is None,
    {
        if id < self.stores.len() {
            Some(&self.stores[id])
        } else {
            None
        }
    }

    /// The pending events.
    pub fn pending(&self) -> (queue: &EventQueue<T>)
        ensures
            queue@ == self@.events,
    {
        &self.events
    }

    /// Adds a queue that buffers up to `capacity` items, and gives its id.
    pub fn create_stores(&mut self, capacity: usize) -> (id: usize)
        requires
            old(self).wf(),
        ensures
            final(self).wf(),
            id == old(self)@.stores.len(),
            final(self)@ == (Kernel {
                stores: old(self)@.stores.push(
                    QueueView {
                        capacity: capacity as nat,
                        items: Seq::empty(),
                        pending_gets: Seq::empty(),
                        pending_puts: Seq::empty(),
                    },
                ),
                ..old(self)@
            }),
    {
        let id = self.stores.len();
        let queue = Stores::new(capacity);
        self.stores.push(queue);
        proof {
            assert(self@.stores =~= old(self)@.stores.push(queue@));
        }
        id
    }

    /// Adds a buffer that can hold `capacity` and holds `init`, and gives its
    /// id. A level that is negative or above the capacity is refused, and
    /// nothing is added.
    pub fn create_containers(&mut self, capacity: T, init: T) -> (r: Result<usize, SimError>)
        requires
            old(self).wf(),
        ensures
            final(self).wf(),
            0 <= init.number() <= capacity.number() ==> r == Ok::<usize, SimError>(
                old(self)@.containers.len() as usize,
            ) && final(self)@ == (Kernel {
                containers: old(self)@.containers.push(
                    BufferView { capacity: capacity.number(), level: init.number() },
                ),
                ..old(self)@
            }),
            !(0 <= init.number() <= capacity.number()) ==> r == Err::<usize, SimError>(
                SimError::InvalidParameters,
            ) && final(self)@ == old(self)@,
    {
        match Containers::new(capacity, init) {
            Ok(buffer) => {
                let id = self.containers.len();
                self.containers.push(buffer);
                proof {
                    assert(self@.containers =~= old(self)@.containers.push(buffer@));
                }
                Ok(id)
            },
            Err(e) => Err(e),
        }
    }

    /// Adds a pool of `capacity` units, all of them available, and gives its
    /// id.
    pub fn create_resources(&mut self, capacity: usize) -> (id: usize)
        requires
            old(self).wf(),
        ensures
            final(self).wf(),
            id == old(self)@.resources.len(),
            final(self)@ == (Kernel {
                resources: old(self)@.resources.push(
                    PoolView {
                        capacity: capacity as nat,
                        available: capacity as nat,
                        holders: 0,
                        waiters: Seq::empty(),
                    },
                ),
                ..old(self)@
            }),
    {
        let id = self.resources.len();
        let pool = Resources::new(capacity);
        self.resources.push(pool);
        proof {
            assert(self@.resources =~= old(self)@.resources.push(pool@));
        }
        id
    }

    /// Offers an event for the process `id`, due `time_delta` ticks from now
    /// and carrying `state`. The event is scheduled unless the delay is zero or
    /// the event would be due after the horizon.
    pub fn add_events(&mut self, id: usize, time_delta: u64, state: T)
        requires
            old(self).wf(),
        ensures
            final(self).wf(),
            final(self)@ == old(self)@.offer(id, time_delta, state),
    {
        proof {
            self@.lemma_offer(id, time_delta, state);
        }
        if time_delta == 0 {
            return ;
        }
        match self.time.checked_add(time_delta) {
            Some(time) => {
                if time <= self.stop {
                    self.events.push(Event { time, process_id: id, state });
                }
            },
            None => {},
        }
    }

    /// Injects an event for the process `id`, due `time_delta` ticks from now
    /// and carrying `state`. The event is scheduled unless it would be due
    /// after the horizon; with no delay it is due now.
    fn inject(&mut self, id: usize, time_delta: u64, state: T)
        requires
            old(self).wf(),
        ensures
            final(self).wf(),
            final(self)@ == old(self)@.inject(id, time_delta, state),
    {
        proof {
            self@.lemma_inject(id, time_delta, state);
        }
        match self.time.checked_add(time_delta) {
            Some(time) => {
                if time <= self.stop {
                    self.events.push(Event { time, process_id: id, state });
                }
            },
            None => {},
        }
    }

    /// Registers a process with its policy, and gives its id: the number of
    /// processes registered before it. The first event of the process carries
    /// a default value and is due when the window of the policy opens, or now
    /// for a process that runs once; it is scheduled unless that time is past,
    /// after the horizon, or outside the window.
    pub fn add_process(&mut self, process: Box<dyn Process<T>>, time_delta: ProcessExecution) -> (id:
        usize)
        requires
            old(self).wf(),
        ensures
            final(self).wf(),
            id == old(self)@.processes.len(),
            exists|state: T| #[trigger]
                is_default(state) && final(self)@ == old(self)@.register(time_delta, state),
    {
        let id = self.processes.len();
        let state = T::default();
        let first = match &time_delta {
            ProcessExecution::Standard => self.time,
            ProcessExecution::Constant(_, ProcessDuration::Infinite(start)) => *start,
            ProcessExecution::Constant(_, ProcessDuration::Finite(start, _)) => *start,
            ProcessExecution::Deterministic(_, ProcessDuration::Infinite(start)) => *start,
            ProcessExecution::Deterministic(_, ProcessDuration::Finite(start, _)) => *start,
            ProcessExecution::Stochastic(_, ProcessDuration::Infinite(start)) => *start,
            ProcessExecution::Stochastic(_, ProcessDuration::Finite(start, _)) => *start,
        };
        let due = self.time <= first && first <= self.stop && time_delta.contains(first);
        proof {
            self@.lemma_register(time_delta, state);
        }
        let slot = SimProcess::new(process, time_delta);
        self.processes.push(slot);
        self.yields.push(BTreeMap::new());
        proof {
            assert(self@.processes =~= old(self)@.processes.push(slot@));
            assert(self@.yields =~= old(self)@.yields.push(Map::empty()));
        }
        if due {
            self.events.push(Event { time: first, process_id: id, state });
        }
        proof {
            assert(is_default(state));
            assert(self@ == old(self)@.register(time_delta, state));
        }
        id
    }

    /// Keeps `failure` for the process `id` until the process is resumed.
    fn keep_failure(&mut self, id: usize, failure: Option<SimError>)
        requires
            old(self).wf(),
            id < old(self)@.processes.len(),
        ensures
            final(self).wf(),
            final(self)@ == old(self)@.failed(id, failure),
    {
        proof {
            self@.lemma_failed(id, failure);
        }
        let slot = &mut self.processes[id];
        slot.failure = failure;
        proof {
            assert(self@.processes =~= old(self)@.failed(id, failure).processes);
        }
    }

    /// Carries out the intent of what the process `id` yielded, and says
    /// whether the intent parked the process.
    fn act(&mut self, id: usize, value: &T, intent: Yield) -> (r: Result<bool, SimError>)
        requires
            old(self).wf(),
            id < old(self)@.processes.len(),
        ensures
            final(self).wf(),
            match old(self)@.act(id, *value, intent) {
                Ok((next, parked)) => r == Ok::<bool, SimError>(parked) && final(self)@ == next,
                Err(e) => r == Err::<bool, SimError>(e) && final(self)@ == old(self)@,
            },
    {
        proof {
            self@.lemma_act(id, *value, intent);
        }
        let now = self.time;
        match intent {
            Yield::Timeout(delta) => {
                self.add_events(id, delta, duplicate(value));
                Ok(false)
            },
            Yield::Pause => Ok(true),
            Yield::AddEvent { time_delta, process_id } => {
                self.inject(process_id, time_delta, duplicate(value));
                Ok(false)
            },
            Yield::RequestResource(r) => {
                if r >= self.resources.len() {
                    return Err(SimError::UnknownId);
                }
                let here = Event { time: now, process_id: id, state: duplicate(value) };
                let pool = &mut self.resources[r];
                let answer = pool.request(here);
                proof {
                    assert(self@.resources =~= old(self)@.resources.update(
                        r as int,
                        self.resources@[r as int]@,
                    ));
                }
                match answer {
                    Ok(_) => Ok(false),
                    Err(_) => Ok(true),
                }
            },
            Yield::ReleaseResource(r) => {
                if r >= self.resources.len() {
                    return Err(SimError::UnknownId);
                }
                let here = Event { time: now, process_id: id, state: duplicate(value) };
                let pool = &mut self.resources[r];
                let answer = pool.release(here);
                proof {
                    assert(self@.resources =~= old(self)@.resources.update(
                        r as int,
                        self.resources@[r as int]@,
                    ));
                }
                match answer {
                    Ok(Some(waiter)) => {
                        self.events.push(waiter);
                        Ok(false)
                    },
                    Ok(None) => Ok(false),
                    Err(e) => {
                        proof {
                            assert(self@.resources =~= old(self)@.resources);
                        }
                        Err(e)
                    },
                }
            },
            Yield::GetContainer(c) => {
                if c >= self.containers.len() {
                    return Err(SimError::UnknownId);
                }
                let buffer = &mut self.containers[c];
                let answer = buffer.get(duplicate(value));
                proof {
                    assert(self@.containers =~= old(self)@.containers.update(
                        c as int,
                        self.containers@[c as int]@,
                    ));
                }
                let failure = match answer {
                    Ok(_) => None,
                    Err(e) => Some(e),
                };
                self.keep_failure(id, failure);
                Ok(false)
            },
            Yield::PutContainer(c) => {
                if c >= self.containers.len() {
                    return Err(SimError::UnknownId);
                }
                let buffer = &mut self.containers[c];
                let answer = buffer.put(duplicate(value));
                proof {
                    assert(self@.containers =~= old(self)@.containers.update(
                        c as int,
                        self.containers@[c as int]@,
                    ));
                }
                let failure = match answer {
                    Ok(_) => None,
                    Err(e) => Some(e),
                };
                self.keep_failure(id, failure);
                Ok(false)
            },
            Yield::GetStore(q) => {
                if q >= self.stores.len() {
                    return Err(SimError::UnknownId);
                }
                let here = Event { time: now, process_id: id, state: duplicate(value) };
                let queue = &mut self.stores[q];
                let answer = queue.get(here);
                proof {
                    assert(self@.stores =~= old(self)@.stores.update(
                        q as int,
                        self.stores@[q as int]@,
                    ));
                }
                match answer {
                    Ok(item) => {
                        self.events.push(item);
                        Ok(false)
                    },
                    Err(_) => Ok(true),
                }
            },
            Yield::PutStore(q) => {
                if q >= self.stores.len() {
                    return Err(SimError::UnknownId);
                }
                let here = Event { time: now, process_id: id, state: duplicate(value) };
                let queue = &mut self.stores[q];
                let answer = queue.put(here);
                proof {
                    assert(self@.stores =~= old(self)@.stores.update(
                        q as int,
                        self.stores@[q as int]@,
                    ));
                }
                match answer {
                    Ok(Some(consumer)) => {
                        self.events.push(consumer);
                        Ok(false)
                    },
                    Ok(None) => Ok(false),
                    Err(_) => Ok(true),
                }
            },
        }
    }

    /// Logs `value` as yielded by the process `id` now, where logging is on.
    fn record(&mut self, id: usize, value: &T)
        requires
            old(self).wf(),
            id < old(self)@.processes.len(),
        ensures
            final(self).wf(),
            final(self)@ == old(self)@.record(id, *value),
    {
        proof {
            self@.lemma_record(id, *value);
        }
        if self.logs {
            let now = self.time;
            let log = &mut self.yields[id];
            log.insert(now, duplicate(value));
            proof {
                assert(self@.yields =~= old(self)@.record(id, *value).yields);
            }
        }
    }

    /// Offers the process `id` its next event of its own.
    fn pace(&mut self, id: usize, delta: u64, value: T)
        requires
            old(self).wf(),
            id < old(self)@.processes.len(),
        ensures
            final(self).wf(),
            final(self)@ == old(self)@.pace(id, delta, value),
    {
        proof {
            self@.lemma_pace(id, delta, value);
            assert(self@.processes[id as int] == self.processes@[id as int]@);
        }
        let once = match &self.processes[id].time_delta {
            ProcessExecution::Standard => true,
            _ => false,
        };
        if once || delta == 0 {
            return ;
        }
        match self.time.checked_add(delta) {
            Some(time) => {
                if time <= self.stop && self.processes[id].time_delta.contains(time) {
                    self.events.push(Event { time, process_id: id, state: value });
                }
            },
            None => {},
        }
    }

    /// Interprets what the process `process_id` yielded: `value`, which
    /// carries the intent `intent`, with `time_delta` the delay to the next
    /// event of the process. The intent is carried out, the value is logged
    /// where logging is on, and the process is offered its next event unless
    /// the intent parked it. Where the intent cannot be carried out, nothing
    /// changes and the reason comes back.
    pub fn interpret(&mut self, process_id: usize, time_delta: u64, value: T, intent: Yield) -> (r:
        Result<(), SimError>)
        requires
            old(self).wf(),
        ensures
            final(self).wf(),
            final(self)@ == old(self)@.interpret(process_id, time_delta, value, intent).0,
            r == old(self)@.interpret(process_id, time_delta, value, intent).1,
    {
        proof {
            self@.lemma_interpret(process_id, time_delta, value, intent);
        }
        if process_id >= self.processes.len() {
            return Err(SimError::UnknownId);
        }
        match self.act(process_id, &value, intent) {
            Ok(parked) => {
                self.record(process_id, &value);
                if !parked {
                    self.pace(process_id, time_delta, value);
                }
                Ok(())
            },
            Err(e) => Err(e),
        }
    }

    /// The delay to the next event of the process `id`, as its policy gives
    /// it: none for a process that runs once, the constant of a constant
    /// policy, what the rule computes from the current time, or one draw from
    /// the distribution, which advances the random stream. No other policy
    /// touches the random stream.
    fn delay(&mut self, id: usize) -> (delta: u64)
        requires
            id < old(self)@.processes.len(),
        ensures
            old(self)@.processes[id as int].policy.allows(delta),
            final(self)@ == old(self)@.asked(id, final(self)@.rng),
    {
        proof {
            assert(self@.processes[id as int] == self.processes@[id as int]@);
        }
        let now = self.time;
        let delta = match &self.processes[id].time_delta {
            ProcessExecution::Standard => 0,
            ProcessExecution::Constant(constant, _) => *constant,
            ProcessExecution::Deterministic(rule, _) => {
                proof {
                    self.handed@ = self.handed@.push(Call::Rule { process_id: id, now });
                }
                rule.delta(now)
            },
            ProcessExecution::Stochastic(distribution, _) => {
                proof {
                    self.handed@ = self.handed@.push(Call::Sample { process_id: id });
                    self.samples@ = self.samples@ + 1;
                }
                distribution.sample(&mut self.rng)
            },
        };
        proof {
            assert(self@.handed =~= old(self)@.handed + old(self)@.asks(id));
        }
        delta
    }

    /// Makes up what the process of `event` is resumed with: the payload of
    /// the event, the current time, and the failure of the last intent of the
    /// process, which the process thereby is told.
    fn brief(&mut self, event: Event<T>) -> (input: State<T>)
        requires
            event.process_id < old(self)@.processes.len(),
        ensures
            input == old(self)@.input(event),
            final(self)@ == old(self)@.briefed(event),
    {
        proof {
            assert(self@.processes[event.process_id as int]
                == self.processes@[event.process_id as int]@);
        }
        let slot = &mut self.processes[event.process_id];
        let error = slot.failure;
        slot.failure = None;
        let input = State { state: event.state, time: self.time, error };
        proof {
            self.handed@ = self.handed@.push(
                Call::Resume { process_id: event.process_id, input },
            );
            assert(self@.processes =~= old(self)@.briefed(event).processes);
        }
        input
    }

    /// Hands `event`, which is due now, to its process, and gives the delay
    /// to the next event of the process and what the process answered. The
    /// policy is asked for the delay first; then the process is resumed with
    /// the input made up for it.
    fn hand_over(&mut self, event: Event<T>) -> (r: (u64, Outcome<T>))
        requires
            old(self).wf(),
            event.time == old(self)@.time,
            old(self)@.screen(event) == Ok::<bool, SimError>(true),
        ensures
            final(self).wf(),
            final(self)@ == old(self)@.resume(event, final(self)@.rng),
            old(self)@.processes[event.process_id as int].policy.allows(r.0),
    {
        let id = event.process_id;
        let delta = self.delay(id);
        proof {
            old(self)@.lemma_resume(event, self@.rng);
        }
        if self.logs {
            self.past_events.push(
                Event { time: event.time, process_id: id, state: duplicate(&event.state) },
            );
        }
        proof {
            self.dispatched@ = self.dispatched@.push(event);
        }
        let input = self.brief(event);
        let ghost briefed = self@;
        let slot = &mut self.processes[id];
        let outcome = slot.process.resume(input);
        proof {
            assert(self@.processes =~= briefed.processes);
        }
        (delta, outcome)
    }

    /// Marks the process `id` as run to its end.
    fn finish(&mut self, id: usize)
        requires
            old(self).wf(),
            id < old(self)@.processes.len(),
        ensures
            final(self).wf(),
            final(self)@ == old(self)@.complete(id),
    {
        proof {
            self@.lemma_complete(id);
        }
        let slot = &mut self.processes[id];
        slot.finished = true;
        proof {
            assert(self@.processes =~= old(self)@.complete(id).processes);
        }
    }

    /// Dispatches the next event.
    ///
    /// Without a pending event nothing happens. Otherwise the earliest event
    /// leaves the queue (among the earliest, the one scheduled first) and the
    /// clock moves to its time. The step fails where the process of the event
    /// is not registered. The event is dropped where its time lies outside the
    /// window of the process; inside the window the step fails where the
    /// process has run to its end. Otherwise the policy of the process is
    /// asked for the delay to the next event (a rule is given the time of the
    /// event, a distribution the random stream), the process is resumed with
    /// the payload of the event, the time of the event and the failure of its
    /// last intent if there was one, and what it yields is interpreted.
    pub fn step(&mut self) -> (r: Result<Step, SimError>)
        requires
            old(self).wf(),
        ensures
            final(self).wf(),
            old(self)@.steps_to(final(self)@, r),
            old(self)@.precedes(final(self)@),
            r == Ok::<Step, SimError>(Step::Idle) <==> old(self)@.events.len() == 0,
            r matches Err(e) ==> e == SimError::UnknownId || e == SimError::TerminatedProcess || e
                == SimError::Overflow,
            !old(self)@.resumes() ==> old(self)@.same_records(final(self)@),
            old(self)@.resumes() ==> final(self)@.dispatched == old(self)@.dispatched.push(
                old(self)@.events[0],
            ),
            old(self)@.resumes() ==> final(self)@.handed == (old(self)@.handed + old(
                self,
            )@.advance().asks(old(self)@.events[0].process_id)).push(
                Call::Resume {
                    process_id: old(self)@.events[0].process_id,
                    input: old(self)@.advance().input(old(self)@.events[0]),
                },
            ),
            old(self)@.resumes() && !(old(self)@.processes[old(
                self,
            )@.events[0].process_id as int].policy is Stochastic) ==> final(self)@.rng == old(
                self,
            )@.rng,
    {
        let r = self.dispatch();
        proof {
            old(self)@.lemma_steps_to(self@, r);
        }
        r
    }

    /// Dispatches the next event.
    fn dispatch(&mut self) -> (r: Result<Step, SimError>)
        requires
            old(self).wf(),
        ensures
            old(self)@.steps_to(final(self)@, r),
    {
        let ghost idle = Answer::<T> {
            delta: 0,
            outcome: Outcome::Complete,
            intent: Yield::Pause,
            rng: self@.rng,
        };
        let event = match self.events.pop() {
            Some(event) => event,
            None => {
                proof {
                    assert(old(self)@.step_with(idle) == (self@, Ok::<Step, SimError>(Step::Idle)));
                }
                return Ok(Step::Idle);
            },
        };
        self.time = event.time;
        let id = event.process_id;
        let ghost begun = self@;
        proof {
            old(self)@.lemma_advance();
            assert(begun == old(self)@.advance());
            if id < self.processes.len() {
                assert(self@.processes[id as int] == self.processes@[id as int]@);
            }
        }
        if id >= self.processes.len() {
            proof {
                assert(old(self)@.step_with(idle) == (
                    self@,
                    Err::<Step, SimError>(SimError::UnknownId),
                ));
            }
            return Err(SimError::UnknownId);
        }
        if !self.processes[id].time_delta.contains(self.time) {
            proof {
                assert(old(self)@.step_with(idle) == (self@, Ok::<Step, SimError>(Step::Dropped)));
            }
            return Ok(Step::Dropped);
        }
        if self.processes[id].finished {
            proof {
                assert(old(self)@.step_with(idle) == (
                    self@,
                    Err::<Step, SimError>(SimError::TerminatedProcess),
                ));
            }
            return Err(SimError::TerminatedProcess);
        }
        let (delta, outcome) = self.hand_over(event);
        let ghost rng = self@.rng;
        match outcome {
            Outcome::Complete => {
                self.finish(id);
                proof {
                    let answer = Answer { delta, outcome, intent: Yield::Pause, rng };
                    assert(old(self)@.step_with(answer) == (
                        self@,
                        Ok::<Step, SimError>(Step::Completed),
                    ));
                }
                Ok(Step::Completed)
            },
            Outcome::Yielded(value) => {
                let intent = value.output();
                let answer = self.interpret(id, delta, value, intent);
                let done = match answer {
                    Ok(_) => Ok(Step::Yielded),
                    Err(e) => Err(e),
                };
                proof {
                    let answer = Answer { delta, outcome, intent, rng };
                    assert(old(self)@.step_with(answer) == (self@, done));
                }
                done
            },
        }
    }

    /// Dispatches events until none is pending. No event is due after the
    /// horizon, so the run ends with the last event at or before it. A failed
    /// step ends the run at once; what happened before it stays on record. A
    /// run gives up after as many steps as a `u64` counts, so that it ends
    /// even where events are injected without delay time and again.
    pub fn run(&mut self) -> (r: Result<(), SimError>)
        requires
            old(self).wf(),
        ensures
            final(self).wf(),
            old(self)@.runs_to(final(self)@, r),
            old(self)@.precedes(final(self)@),
            r is Ok ==> final(self)@.events.len() == 0,
            r matches Err(e) ==> e == SimError::UnknownId || e == SimError::TerminatedProcess || e
                == SimError::Overflow || e == SimError::Exhausted,
    {
        let ghost mut answers: Seq<Answer<T>> = Seq::empty();
        let mut left: u64 = u64::MAX;
        proof {
            self@.lemma_precedes_itself();
        }
        while left > 0
            invariant
                self.wf(),
                old(self)@.precedes(self@),
                old(self)@.runs_through(answers),
                old(self)@.run_with(answers) == self@,
                answers.len() + left == u64::MAX,
            decreases left,
        {
            let ghost before = self@;
            let done = self.step();
            let ghost answer = choose|answer: Answer<T>|
                before.expects(answer) && (#[trigger] before.step_with(answer)) == (self@, done);
            proof {
                old(self)@.lemma_precedes_is_transitive(before, self@);
                old(self)@.lemma_run_with_push(answers, answer);
            }
            match done {
                Ok(Step::Idle) => {
                    proof {
                        assert(old(self)@.ends_with(answers, answer, self@, Ok::<(), SimError>(())));
                    }
                    return Ok(());
                },
                Ok(_) => {
                    proof {
                        answers = answers.push(answer);
                    }
                    left = left - 1;
                },
                Err(e) => {
                    proof {
                        assert(old(self)@.ends_with(answers, answer, self@, Err::<(), SimError>(e)));
                    }
                    return Err(e);
                },
            }
        }
        proof {
            assert(old(self)@.gives_up(
                answers,
                self@,
                Err::<(), SimError>(SimError::Exhausted),
            ));
        }
        Err(SimError::Exhausted)
    }
}

} // verus!
