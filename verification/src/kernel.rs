//! The simulation as a transition system over plain values.
//!
//! [`Kernel`] is what an environment holds, seen as mathematical values. Each
//! operation of the environment is a function from one kernel to the next, and
//! the invariant [`Kernel::wf`] holds of every kernel that the operations
//! reach. The proofs of that stand at the end of this file.

use crate::environment::Event;
use crate::environment::Outcome;
use crate::environment::ProcessExecution;
use crate::environment::State;
use crate::environment::Yield;
use crate::error::SimError;
use crate::resources::Arithmetic;
use crate::resources::BufferView;
use crate::resources::PoolView;
use crate::resources::QueueView;
use crate::schedule::due_by;
use crate::schedule::in_time_order;
use crate::schedule::lemma_scheduling_is_stable;
use crate::schedule::scheduled;
use rand::rngs::StdRng;
use vstd::prelude::*;

verus! {

/// What the registry knows of one process, beside the process itself.
pub struct ProcessView {
    /// How the process paces itself.
    pub policy: ProcessExecution,
    /// Whether the process has run to its end.
    pub finished: bool,
    /// Why a buffer refused what the process last asked of it, until the
    /// process has been told.
    pub failure: Option<SimError>,
}

/// What the kernel hands to the code outside it.
pub enum Call<T> {
    /// The rule of a process was asked for the delay from the time `now`.
    Rule {
        /// The process whose rule was asked.
        process_id: usize,
        /// The time that the rule was given.
        now: u64,
    },
    /// The distribution of a process was asked for a delay and given the
    /// random stream.
    Sample {
        /// The process whose distribution was asked.
        process_id: usize,
    },
    /// A process was resumed.
    Resume {
        /// The process that was resumed.
        process_id: usize,
        /// What the process was resumed with.
        input: State<T>,
    },
}

/// What an environment holds, as plain values.
pub struct Kernel<T> {
    /// The current time.
    pub time: u64,
    /// The horizon: the last time at which an event is dispatched.
    pub stop: u64,
    /// Whether dispatched events and yielded values are logged.
    pub logs: bool,
    /// The seed that the random stream was started from.
    pub seed: u64,
    /// The random stream, as the last draw left it.
    pub rng: StdRng,
    /// What was handed to the rules, the distributions and the processes, in
    /// the order of the calls.
    pub handed: Seq<Call<T>>,
    /// The pending events, the next one to be dispatched first.
    pub events: Seq<Event<T>>,
    /// Every event that was handed to its process, in the order of dispatch.
    /// An event that was dropped, or that could not be handed over, is not
    /// among them.
    pub dispatched: Seq<Event<T>>,
    /// The number of delays that were drawn from a distribution.
    pub samples: nat,
    /// The dispatched events that were logged, in the order of dispatch.
    pub past_events: Seq<Event<T>>,
    /// For each process, the values it yielded while logging was on, by time.
    pub yields: Seq<Map<u64, T>>,
    /// The registered processes, by their id.
    pub processes: Seq<ProcessView>,
    /// The pools, by their id.
    pub resources: Seq<PoolView<T>>,
    /// The buffers, by their id.
    pub containers: Seq<BufferView>,
    /// The queues, by their id.
    pub stores: Seq<QueueView<T>>,
}

/// What a dispatch step found to do.
#[derive(Clone, Copy, Debug, PartialEq, Eq, Structural)]
pub enum Step {
    /// No event was pending.
    Idle,
    /// The next event fell outside the window of its process and was dropped.
    Dropped,
    /// The next event resumed its process, which yielded.
    Yielded,
    /// The next event resumed its process, which ran to its end.
    Completed,
}

/// What the code outside the kernel answered in one dispatch.
pub struct Answer<T> {
    /// The delay to the next event of the process, as its policy gave it.
    pub delta: u64,
    /// What the resumed process answered.
    pub outcome: Outcome<T>,
    /// The intent that the yielded value carries.
    pub intent: Yield,
    /// The random stream as the distribution of the process left it.
    pub rng: StdRng,
}

/// The number of events of `trace` whose process draws its delays from a
/// distribution.
pub open spec fn draws<T>(trace: Seq<Event<T>>, processes: Seq<ProcessView>) -> nat
    decreases trace.len(),
{
    if trace.len() == 0 {
        0
    } else {
        draws(trace.drop_last(), processes) + if processes[trace.last().process_id as int].policy
            is Stochastic {
            1nat
        } else {
            0nat
        }
    }
}

impl<T: Arithmetic> Kernel<T> {
    /// The invariant of the simulation.
    ///
    /// The clock is within the horizon. Every pending event is due between now
    /// and the horizon, and the pending events stand in time order. The
    /// dispatched events stand in time order, none of them later than now, and
    /// each belongs to a registered process; so do the logged ones. As many
    /// delays were drawn as events were dispatched to processes that draw their
    /// delays. Every process has its log, and every resource keeps its own
    /// invariant.
    pub open spec fn wf(self) -> bool {
        &&& self.time <= self.stop
        &&& in_time_order(self.events)
        &&& forall|i: int|
            0 <= i < self.events.len() ==> self.time <= (#[trigger] self.events[i]).time
                <= self.stop
        &&& in_time_order(self.dispatched)
        &&& forall|i: int|
            0 <= i < self.dispatched.len() ==> (#[trigger] self.dispatched[i]).time <= self.time
                && self.dispatched[i].process_id < self.processes.len()
        &&& self.samples == draws(self.dispatched, self.processes)
        &&& in_time_order(self.past_events)
        &&& forall|i: int|
            0 <= i < self.past_events.len() ==> (#[trigger] self.past_events[i]).time
                <= self.time
        &&& self.yields.len() == self.processes.len()
        &&& forall|i: int| 0 <= i < self.resources.len() ==> (#[trigger] self.resources[i]).wf()
        &&& forall|i: int| 0 <= i < self.containers.len() ==> (#[trigger] self.containers[i]).wf()
        &&& forall|i: int| 0 <= i < self.stores.len() ==> (#[trigger] self.stores[i]).wf()
    }

    /// The kernel of a fresh environment with the horizon `stop`, whose random
    /// stream `rng` is started from `seed`.
    pub open spec fn initial(stop: u64, seed: u64, rng: StdRng) -> Self {
        Kernel {
            time: 0,
            stop,
            logs: false,
            seed,
            rng,
            handed: Seq::empty(),
            events: Seq::empty(),
            dispatched: Seq::empty(),
            samples: 0,
            past_events: Seq::empty(),
            yields: Seq::empty(),
            processes: Seq::empty(),
            resources: Seq::empty(),
            containers: Seq::empty(),
            stores: Seq::empty(),
        }
    }

    /// The kernel with `event` among the pending events.
    pub open spec fn schedule(self, event: Event<T>) -> Self {
        Kernel { events: scheduled(self.events, event), ..self }
    }

    /// The kernel after an event for the process `id` has been offered, due
    /// `delta` ticks from now: it is scheduled unless the delay is zero or the
    /// event would be due after the horizon.
    pub open spec fn offer(self, id: usize, delta: u64, state: T) -> Self {
        if delta > 0 && self.time + delta <= self.stop {
            self.schedule(Event { time: (self.time + delta) as u64, process_id: id, state })
        } else {
            self
        }
    }

    /// The kernel after an event for the process `id` has been injected, due
    /// `delta` ticks from now: it is scheduled unless it would be due after
    /// the horizon. With no delay it is due now, behind what is already due
    /// now.
    pub open spec fn inject(self, id: usize, delta: u64, state: T) -> Self {
        if self.time + delta <= self.stop {
            self.schedule(Event { time: (self.time + delta) as u64, process_id: id, state })
        } else {
            self
        }
    }

    /// The kernel after a process with the policy `policy` has been
    /// registered. Its first event carries `state` and is due when its window
    /// opens (now, for a process that runs once); it is scheduled unless that
    /// time is past, after the horizon, or outside the window.
    pub open spec fn register(self, policy: ProcessExecution, state: T) -> Self {
        let first = policy.first_time(self.time);
        let grown = Kernel {
            processes: self.processes.push(ProcessView { policy, finished: false, failure: None }),
            yields: self.yields.push(Map::empty()),
            ..self
        };
        if self.time <= first <= self.stop && policy.admits(first) {
            grown.schedule(Event { time: first, process_id: self.processes.len() as usize, state })
        } else {
            grown
        }
    }

    /// The kernel after the next event has left the queue and the clock has
    /// moved to its time.
    pub open spec fn advance(self) -> Self {
        Kernel { time: self.events[0].time, events: self.events.drop_first(), ..self }
    }

    /// Whether `event` can be handed to its process now. It cannot where the
    /// process is not registered. It is dropped (`Ok(false)`) where the time
    /// lies outside the window of the process. Inside the window it cannot be
    /// handed to a process that has run to its end.
    pub open spec fn screen(self, event: Event<T>) -> Result<bool, SimError> {
        if event.process_id >= self.processes.len() {
            Err(SimError::UnknownId)
        } else if !self.processes[event.process_id as int].policy.admits(self.time) {
            Ok(false)
        } else if self.processes[event.process_id as int].finished {
            Err(SimError::TerminatedProcess)
        } else {
            Ok(true)
        }
    }

    /// The kernel with the process `id` marked as told of its last failure.
    pub open spec fn told(self, id: usize) -> Self {
        Kernel {
            processes: self.processes.update(
                id as int,
                ProcessView { failure: None, ..self.processes[id as int] },
            ),
            ..self
        }
    }

    /// The kernel with `failure` kept for the process `id`.
    pub open spec fn failed(self, id: usize, failure: Option<SimError>) -> Self {
        Kernel {
            processes: self.processes.update(
                id as int,
                ProcessView { failure, ..self.processes[id as int] },
            ),
            ..self
        }
    }

    /// What the process of `event` is resumed with: the payload of the event,
    /// the current time, and the failure of its last intent, if a buffer
    /// refused it.
    pub open spec fn input(self, event: Event<T>) -> State<T> {
        State {
            state: event.state,
            time: self.time,
            error: self.processes[event.process_id as int].failure,
        }
    }

    /// What the policy of the process `id` is asked for the delay to the next
    /// event: a rule is given the current time, a distribution is given the
    /// random stream, and nothing is asked for a constant delay or for a
    /// process that runs once.
    pub open spec fn asks(self, id: usize) -> Seq<Call<T>> {
        match self.processes[id as int].policy {
            ProcessExecution::Deterministic(_, _) => seq![
                Call::Rule { process_id: id, now: self.time },
            ],
            ProcessExecution::Stochastic(_, _) => seq![Call::Sample { process_id: id }],
            _ => Seq::empty(),
        }
    }

    /// The kernel after the policy of the process `id` has been asked for the
    /// delay to the next event. Where the process draws its delays, one more
    /// draw is counted and `rng` is the random stream as the draw left it;
    /// otherwise the random stream is as it was.
    pub open spec fn asked(self, id: usize, rng: StdRng) -> Self {
        Kernel {
            handed: self.handed + self.asks(id),
            samples: if self.processes[id as int].policy is Stochastic {
                self.samples + 1
            } else {
                self.samples
            },
            rng: if self.processes[id as int].policy is Stochastic {
                rng
            } else {
                self.rng
            },
            ..self
        }
    }

    /// The kernel after the input for the process of `event` has been made
    /// up: the input is on record as handed to the process, and the process
    /// counts as told of its last failure.
    pub open spec fn briefed(self, event: Event<T>) -> Self {
        Kernel {
            handed: self.handed.push(
                Call::Resume { process_id: event.process_id, input: self.input(event) },
            ),
            ..self.told(event.process_id)
        }
    }

    /// The kernel after `event` has been handed to its process. The policy of
    /// the process was asked for the delay to the next event, with `rng` the
    /// random stream as a draw left it; then the process was resumed with the
    /// payload of the event, the current time and its last failure. The event
    /// is on record as dispatched, and as logged where logging is on.
    pub open spec fn resume(self, event: Event<T>, rng: StdRng) -> Self {
        let briefed = self.asked(event.process_id, rng).briefed(event);
        Kernel {
            dispatched: self.dispatched.push(event),
            past_events: if self.logs {
                self.past_events.push(event)
            } else {
                self.past_events
            },
            ..briefed
        }
    }

    /// The kernel after the process `id` has run to its end.
    pub open spec fn complete(self, id: usize) -> Self {
        Kernel {
            processes: self.processes.update(
                id as int,
                ProcessView { finished: true, ..self.processes[id as int] },
            ),
            ..self
        }
    }

    /// The kernel with the pool `r` replaced.
    pub open spec fn with_pool(self, r: usize, pool: PoolView<T>) -> Self {
        Kernel { resources: self.resources.update(r as int, pool), ..self }
    }

    /// The kernel with the buffer `c` replaced.
    pub open spec fn with_buffer(self, c: usize, buffer: BufferView) -> Self {
        Kernel { containers: self.containers.update(c as int, buffer), ..self }
    }

    /// The kernel with the queue `q` replaced.
    pub open spec fn with_queue(self, q: usize, queue: QueueView<T>) -> Self {
        Kernel { stores: self.stores.update(q as int, queue), ..self }
    }

    /// What the intent `intent` of the process `id`, yielded with `value`,
    /// does to the queue of events and to the resources, and whether it parks
    /// the process; or why it cannot be carried out.
    ///
    /// A timeout is offered to the queue, and is not scheduled with a delay of
    /// zero. An event for another process is injected, also with a delay of
    /// zero. A pause parks the process. A request takes a unit of the pool or parks the
    /// process among its waiters. A release wakes the longest waiting process
    /// now, or frees the unit. A buffer is drawn from or added to by the amount
    /// that `value` stands for, and a refusal is kept for the process. A queue
    /// hands its oldest item to the process now, or parks the process; it takes
    /// `value` as an item, hands it to the longest waiting consumer now, or
    /// parks the process.
    pub open spec fn act(self, id: usize, value: T, intent: Yield) -> Result<(Self, bool), SimError> {
        let here = Event { time: self.time, process_id: id, state: value };
        match intent {
            Yield::Timeout(delta) => Ok((self.offer(id, delta, value), false)),
            Yield::Pause => Ok((self, true)),
            Yield::AddEvent { time_delta, process_id } => Ok(
                (self.inject(process_id, time_delta, value), false),
            ),
            Yield::RequestResource(r) => if r < self.resources.len() {
                let (pool, answer) = self.resources[r as int].request(here);
                Ok((self.with_pool(r, pool), answer is Err))
            } else {
                Err(SimError::UnknownId)
            },
            Yield::ReleaseResource(r) => if r < self.resources.len() {
                let (pool, answer) = self.resources[r as int].release(here);
                match answer {
                    Ok(Some(waiter)) => Ok((self.with_pool(r, pool).schedule(waiter), false)),
                    Ok(None) => Ok((self.with_pool(r, pool), false)),
                    Err(e) => Err(e),
                }
            } else {
                Err(SimError::UnknownId)
            },
            Yield::GetContainer(c) => if c < self.containers.len() {
                let (buffer, answer) = self.containers[c as int].get(value.number());
                Ok(
                    (
                        self.with_buffer(c, buffer).failed(
                            id,
                            match answer {
                                Ok(_) => None,
                                Err(e) => Some(e),
                            },
                        ),
                        false,
                    ),
                )
            } else {
                Err(SimError::UnknownId)
            },
            Yield::PutContainer(c) => if c < self.containers.len() {
                let (buffer, answer) = self.containers[c as int].put(value.number());
                Ok(
                    (
                        self.with_buffer(c, buffer).failed(
                            id,
                            match answer {
                                Ok(_) => None,
                                Err(e) => Some(e),
                            },
                        ),
                        false,
                    ),
                )
            } else {
                Err(SimError::UnknownId)
            },
            Yield::GetStore(q) => if q < self.stores.len() {
                let (queue, answer) = self.stores[q as int].get(here);
                match answer {
                    Ok(item) => Ok((self.with_queue(q, queue).schedule(item), false)),
                    Err(_) => Ok((self.with_queue(q, queue), true)),
                }
            } else {
                Err(SimError::UnknownId)
            },
            Yield::PutStore(q) => if q < self.stores.len() {
                let (queue, answer) = self.stores[q as int].put(here);
                match answer {
                    Ok(Some(consumer)) => Ok(
                        (self.with_queue(q, queue).schedule(consumer), false),
                    ),
                    Ok(None) => Ok((self.with_queue(q, queue), false)),
                    Err(_) => Ok((self.with_queue(q, queue), true)),
                }
            } else {
                Err(SimError::UnknownId)
            },
        }
    }

    /// The kernel with `value` in the log of the process `id` at the current
    /// time, where logging is on. A value logged earlier at that time is
    /// replaced.
    pub open spec fn record(self, id: usize, value: T) -> Self {
        if self.logs {
            Kernel {
                yields: self.yields.update(id as int, self.yields[id as int].insert(self.time, value)),
                ..self
            }
        } else {
            self
        }
    }

    /// The kernel after the process `id` has been offered its next event of
    /// its own, due `delta` ticks from now and carrying `value`. The event is
    /// scheduled unless the process runs once, the delay is zero, or the event
    /// would be due after the horizon or outside the window of the process.
    pub open spec fn pace(self, id: usize, delta: u64, value: T) -> Self {
        let policy = self.processes[id as int].policy;
        if !(policy is Standard) && delta > 0 && self.time + delta <= self.stop && policy.admits(
            (self.time + delta) as u64,
        ) {
            self.schedule(Event { time: (self.time + delta) as u64, process_id: id, state: value })
        } else {
            self
        }
    }

    /// The kernel after the process `id` has yielded `value` with the intent
    /// `intent`, with `delta` the delay to its next event of its own; or the
    /// kernel as it was and why the intent cannot be carried out.
    ///
    /// The intent is carried out, the value is logged, and the process is
    /// offered its next event unless the intent parked it.
    pub open spec fn interpret(self, id: usize, delta: u64, value: T, intent: Yield) -> (
        Self,
        Result<(), SimError>,
    ) {
        if id >= self.processes.len() {
            (self, Err(SimError::UnknownId))
        } else {
            match self.act(id, value, intent) {
                Err(e) => (self, Err(e)),
                Ok((next, parked)) => (
                    if parked {
                        next.record(id, value)
                    } else {
                        next.record(id, value).pace(id, delta, value)
                    },
                    Ok(()),
                ),
            }
        }
    }

    /// The kernel after a resumed process has answered `outcome`, and what the
    /// step has done; `intent` is the intent of the value that the process
    /// yielded, and `delta` the delay to its next event of its own.
    pub open spec fn conclude(self, id: usize, delta: u64, outcome: Outcome<T>, intent: Yield) -> (
        Self,
        Result<Step, SimError>,
    ) {
        match outcome {
            Outcome::Complete => (self.complete(id), Ok(Step::Completed)),
            Outcome::Yielded(value) => match self.interpret(id, delta, value, intent).1 {
                Ok(_) => (self.interpret(id, delta, value, intent).0, Ok(Step::Yielded)),
                Err(e) => (self.interpret(id, delta, value, intent).0, Err(e)),
            },
        }
    }

    /// Whether the next event is handed to its process: there is one, its
    /// process is registered, the time of the event lies in the window of the
    /// process, and the process has not run to its end.
    pub open spec fn resumes(self) -> bool {
        self.events.len() > 0 && self.advance().screen(self.events[0]) == Ok::<bool, SimError>(
            true,
        )
    }

    /// Whether `answer` can be given in the next dispatch: where the next
    /// event is handed to its process, the policy of the process allows the
    /// delay.
    pub open spec fn expects(self, answer: Answer<T>) -> bool {
        self.resumes() ==> self.processes[self.events[0].process_id as int].policy.allows(
            answer.delta,
        )
    }

    /// The kernel after one dispatch step in which the code outside the kernel
    /// answered `answer`, and what the step has done.
    ///
    /// Without a pending event nothing changes. Otherwise the next event leaves
    /// the queue and the clock moves to its time. The step fails there where
    /// the process of the event is not registered. It drops the event where
    /// the time lies outside the window of the process. Inside the window it
    /// fails where the process has run to its end. Otherwise the event is
    /// handed to the process, and the step ends as the answer has it.
    pub open spec fn step_with(self, answer: Answer<T>) -> (Self, Result<Step, SimError>) {
        if self.events.len() == 0 {
            (self, Ok(Step::Idle))
        } else {
            let event = self.events[0];
            let begun = self.advance();
            match begun.screen(event) {
                Err(e) => (begun, Err(e)),
                Ok(false) => (begun, Ok(Step::Dropped)),
                Ok(true) => begun.resume(event, answer.rng).conclude(
                    event.process_id,
                    answer.delta,
                    answer.outcome,
                    answer.intent,
                ),
            }
        }
    }

    /// What one dispatch step can make of the kernel: `after` and `done` are
    /// the next kernel and the result for some answer that can be given.
    pub open spec fn steps_to(self, after: Self, done: Result<Step, SimError>) -> bool {
        exists|answer: Answer<T>|
            self.expects(answer) && (#[trigger] self.step_with(answer)) == (after, done)
    }

    /// The kernel after as many dispatch steps as there are answers, one
    /// answer to each step.
    pub open spec fn run_with(self, answers: Seq<Answer<T>>) -> Self
        decreases answers.len(),
    {
        if answers.len() == 0 {
            self
        } else {
            self.run_with(answers.drop_last()).step_with(answers.last()).0
        }
    }

    /// Whether a run can get the answers `answers`, one to each step: each can
    /// be given in its step, and each step finds an event and succeeds.
    pub open spec fn runs_through(self, answers: Seq<Answer<T>>) -> bool
        decreases answers.len(),
    {
        answers.len() > 0 ==> {
            let before = self.run_with(answers.drop_last());
            &&& self.runs_through(answers.drop_last())
            &&& before.expects(answers.last())
            &&& before.events.len() > 0
            &&& before.step_with(answers.last()).1 is Ok
        }
    }

    /// Whether a run that gets the answers `answers` and then `last` ends
    /// with the kernel `after` and the result `done`: the steps before the
    /// last succeed, and the last one either finds no event, which ends the
    /// run well, or fails, which ends it with that failure.
    pub open spec fn ends_with(
        self,
        answers: Seq<Answer<T>>,
        last: Answer<T>,
        after: Self,
        done: Result<(), SimError>,
    ) -> bool {
        let before = self.run_with(answers);
        &&& self.runs_through(answers)
        &&& before.expects(last)
        &&& before.step_with(last) == (
            after,
            match done {
                Ok(_) => Ok::<Step, SimError>(Step::Idle),
                Err(e) => Err::<Step, SimError>(e),
            },
        )
    }

    /// Whether a run that gets the answers `answers` gives up with the kernel
    /// `after` and the result `done`: every step succeeds, and there are as
    /// many of them as a run can count.
    pub open spec fn gives_up(
        self,
        answers: Seq<Answer<T>>,
        after: Self,
        done: Result<(), SimError>,
    ) -> bool {
        &&& self.runs_through(answers)
        &&& answers.len() == u64::MAX
        &&& after == self.run_with(answers)
        &&& done == Err::<(), SimError>(SimError::Exhausted)
    }

    /// What a run can make of the kernel: `after` and `done` are the kernel
    /// and the result that the run ends with, or gives up with, for some
    /// answers that can be given.
    pub open spec fn runs_to(self, after: Self, done: Result<(), SimError>) -> bool {
        ||| exists|answers: Seq<Answer<T>>, last: Answer<T>| #[trigger]
            self.ends_with(answers, last, after, done)
        ||| exists|answers: Seq<Answer<T>>| #[trigger] self.gives_up(answers, after, done)
    }

    /// Whether `other` has the records of this kernel: the same events on
    /// record as dispatched and as logged, the same calls on record as made,
    /// the same number of draws, and the random stream as it is here.
    pub open spec fn same_records(self, other: Self) -> bool {
        &&& other.dispatched == self.dispatched
        &&& other.past_events == self.past_events
        &&& other.handed == self.handed
        &&& other.samples == self.samples
        &&& other.rng == self.rng
    }

    /// Whether every dispatched event was logged.
    pub open spec fn logged_all(self) -> bool {
        self.logs && self.past_events == self.dispatched
    }

    /// Whether `later` can follow from this kernel by dispatching events: the
    /// horizon, the logging and the resources' number and capacities are the
    /// same, no process has left the registry or changed its policy, a process
    /// that had run to its end still has, the clock has not gone back, and
    /// the records have only grown.
    pub open spec fn precedes(self, later: Self) -> bool {
        &&& later.stop == self.stop
        &&& later.logs == self.logs
        &&& later.seed == self.seed
        &&& self.time <= later.time
        &&& self.samples <= later.samples
        &&& self.dispatched.len() <= later.dispatched.len()
        &&& later.dispatched.subrange(0, self.dispatched.len() as int) == self.dispatched
        &&& self.past_events.len() <= later.past_events.len()
        &&& later.past_events.subrange(0, self.past_events.len() as int) == self.past_events
        &&& later.processes.len() == self.processes.len()
        &&& forall|i: int|
            0 <= i < self.processes.len() ==> (#[trigger] later.processes[i]).policy
                == self.processes[i].policy && (self.processes[i].finished
                ==> later.processes[i].finished)
        &&& later.resources.len() == self.resources.len()
        &&& forall|i: int|
            0 <= i < self.resources.len() ==> (#[trigger] later.resources[i]).capacity
                == self.resources[i].capacity
        &&& later.containers.len() == self.containers.len()
        &&& forall|i: int|
            0 <= i < self.containers.len() ==> (#[trigger] later.containers[i]).capacity
                == self.containers[i].capacity
        &&& later.stores.len() == self.stores.len()
        &&& forall|i: int|
            0 <= i < self.stores.len() ==> (#[trigger] later.stores[i]).capacity
                == self.stores[i].capacity
    }
}

/// The count of draws looks only at the policies of the processes that the
/// events of the trace belong to.
pub proof fn lemma_draws_by_policy<T>(
    trace: Seq<Event<T>>,
    before: Seq<ProcessView>,
    after: Seq<ProcessView>,
)
    requires
        forall|i: int|
            0 <= i < trace.len() ==> before[(#[trigger] trace[i]).process_id as int].policy
                == after[trace[i].process_id as int].policy,
    ensures
        draws(trace, before) == draws(trace, after),
    decreases trace.len(),
{
    if trace.len() > 0 {
        assert(trace.last() == trace[trace.len() - 1]);
        assert forall|i: int| 0 <= i < trace.drop_last().len() implies before[(
        #[trigger] trace.drop_last()[i]).process_id as int].policy
            == after[trace.drop_last()[i].process_id as int].policy by {
            assert(trace.drop_last()[i] == trace[i]);
        }
        lemma_draws_by_policy(trace.drop_last(), before, after);
    }
}

impl<T: Arithmetic> Kernel<T> {
    /// A kernel precedes itself.
    pub proof fn lemma_precedes_itself(self)
        ensures
            self.precedes(self),
    {
        assert(self.dispatched.subrange(0, self.dispatched.len() as int) =~= self.dispatched);
        assert(self.past_events.subrange(0, self.past_events.len() as int) =~= self.past_events);
    }

    /// What follows from a kernel that follows from this one, follows from
    /// this one.
    pub proof fn lemma_precedes_is_transitive(self, middle: Self, last: Self)
        requires
            self.precedes(middle),
            middle.precedes(last),
        ensures
            self.precedes(last),
    {
        assert(last.dispatched.subrange(0, self.dispatched.len() as int) =~= middle.dispatched.subrange(
            0,
            self.dispatched.len() as int,
        )) by {
            assert forall|i: int| 0 <= i < self.dispatched.len() implies last.dispatched[i]
                == middle.dispatched[i] by {
                assert(last.dispatched.subrange(0, middle.dispatched.len() as int)[i]
                    == middle.dispatched[i]);
            }
        }
        assert(last.past_events.subrange(0, self.past_events.len() as int) =~= middle.past_events.subrange(
            0,
            self.past_events.len() as int,
        )) by {
            assert forall|i: int| 0 <= i < self.past_events.len() implies last.past_events[i]
                == middle.past_events[i] by {
                assert(last.past_events.subrange(0, middle.past_events.len() as int)[i]
                    == middle.past_events[i]);
            }
        }
        assert forall|i: int| 0 <= i < self.processes.len() implies (
        #[trigger] last.processes[i]).policy == self.processes[i].policy && (
        self.processes[i].finished ==> last.processes[i].finished) by {
            assert(middle.processes[i].policy == self.processes[i].policy);
        }
        assert forall|i: int| 0 <= i < self.resources.len() implies (
        #[trigger] last.resources[i]).capacity == self.resources[i].capacity by {
            assert(middle.resources[i].capacity == self.resources[i].capacity);
        }
        assert forall|i: int| 0 <= i < self.containers.len() implies (
        #[trigger] last.containers[i]).capacity == self.containers[i].capacity by {
            assert(middle.containers[i].capacity == self.containers[i].capacity);
        }
        assert forall|i: int| 0 <= i < self.stores.len() implies (
        #[trigger] last.stores[i]).capacity == self.stores[i].capacity by {
            assert(middle.stores[i].capacity == self.stores[i].capacity);
        }
    }

    /// A fresh kernel keeps the invariant.
    pub proof fn lemma_initial_wf(stop: u64, seed: u64, rng: StdRng)
        ensures
            Self::initial(stop, seed, rng).wf(),
    {
    }

    /// Scheduling an event that is due between now and the horizon keeps the
    /// invariant.
    pub proof fn lemma_schedule(self, event: Event<T>)
        requires
            self.wf(),
            self.time <= event.time <= self.stop,
        ensures
            self.schedule(event).wf(),
            self.precedes(self.schedule(event)),
    {
        let next = self.schedule(event);
        lemma_scheduling_is_stable(self.events, event);
        let at = due_by(self.events, event.time) as int;
        assert forall|i: int| 0 <= i < next.events.len() implies self.time <= (
        #[trigger] next.events[i]).time <= self.stop by {
            if i < at {
                assert(next.events[i] == self.events[i]);
            } else if i > at {
                assert(next.events[i] == self.events[i - 1]);
            }
        }
        self.lemma_precedes_itself();
    }

    /// Offering an event keeps the invariant: the event, if it is scheduled, is
    /// due later than now and not after the horizon.
    pub proof fn lemma_offer(self, id: usize, delta: u64, state: T)
        requires
            self.wf(),
        ensures
            self.offer(id, delta, state).wf(),
            self.precedes(self.offer(id, delta, state)),
    {
        if delta > 0 && self.time + delta <= self.stop {
            self.lemma_schedule(
                Event { time: (self.time + delta) as u64, process_id: id, state },
            );
        } else {
            self.lemma_precedes_itself();
        }
    }

    /// Injecting an event keeps the invariant: the event, if it is scheduled,
    /// is due now or later and not after the horizon.
    pub proof fn lemma_inject(self, id: usize, delta: u64, state: T)
        requires
            self.wf(),
        ensures
            self.inject(id, delta, state).wf(),
            self.precedes(self.inject(id, delta, state)),
    {
        if self.time + delta <= self.stop {
            self.lemma_schedule(
                Event { time: (self.time + delta) as u64, process_id: id, state },
            );
        } else {
            self.lemma_precedes_itself();
        }
    }

    /// Registering a process keeps the invariant: the process takes the next
    /// id, and its first event, if it is scheduled, is due between now and the
    /// horizon.
    pub proof fn lemma_register(self, policy: ProcessExecution, state: T)
        requires
            self.wf(),
        ensures
            self.register(policy, state).wf(),
            self.register(policy, state).processes.len() == self.processes.len() + 1,
            self.register(policy, state).time == self.time,
    {
        let grown = Kernel {
            processes: self.processes.push(ProcessView { policy, finished: false, failure: None }),
            yields: self.yields.push(Map::empty()),
            ..self
        };
        lemma_draws_by_policy(self.dispatched, self.processes, grown.processes);
        assert(grown.wf());
        let first = policy.first_time(self.time);
        if self.time <= first <= self.stop && policy.admits(first) {
            grown.lemma_schedule(
                Event { time: first, process_id: self.processes.len() as usize, state },
            );
        }
    }

    /// Taking the next event keeps the invariant. The clock moves to the time
    /// of the event, which is neither earlier than now nor after the horizon.
    pub proof fn lemma_advance(self)
        requires
            self.wf(),
            self.events.len() > 0,
        ensures
            self.advance().wf(),
            self.precedes(self.advance()),
            self.time <= self.advance().time <= self.stop,
            self.advance().time == self.events[0].time,
    {
        let next = self.advance();
        let head = self.events[0];
        assert(self.time <= head.time <= self.stop);
        assert forall|i: int, j: int| 0 <= i <= j < next.events.len() implies next.events[i].time
            <= next.events[j].time by {
            assert(self.events[i + 1].time <= self.events[j + 1].time);
        }
        assert forall|i: int| 0 <= i < next.events.len() implies next.time <= (
        #[trigger] next.events[i]).time <= next.stop by {
            assert(next.events[i] == self.events[i + 1]);
            assert(self.events[0].time <= self.events[i + 1].time);
        }
        assert forall|i: int| 0 <= i < next.dispatched.len() implies (
        #[trigger] next.dispatched[i]).time <= next.time && next.dispatched[i].process_id
            < next.processes.len() by {
            assert(self.dispatched[i].time <= self.time);
        }
        assert forall|i: int| 0 <= i < next.past_events.len() implies (
        #[trigger] next.past_events[i]).time <= next.time by {
            assert(self.past_events[i].time <= self.time);
        }
        self.lemma_precedes_itself();
    }

    /// Handing an event that is due now to its process keeps the
    /// invariant. The event joins the dispatched events. The process is given
    /// the payload of the event, the current time and its last failure, and a
    /// rule is given the current time. One more delay counts as drawn exactly
    /// where the process draws its delays, and otherwise the random stream is
    /// left as it was.
    pub proof fn lemma_resume(self, event: Event<T>, rng: StdRng)
        requires
            self.wf(),
            event.time == self.time,
            self.screen(event) == Ok::<bool, SimError>(true),
        ensures
            self.resume(event, rng).wf(),
            self.precedes(self.resume(event, rng)),
            self.resume(event, rng).dispatched == self.dispatched.push(event),
            self.resume(event, rng).handed == (self.handed + self.asks(event.process_id)).push(
                Call::Resume { process_id: event.process_id, input: self.input(event) },
            ),
            self.resume(event, rng).samples == self.samples + if self.processes[event.process_id as int].policy
                is Stochastic {
                1nat
            } else {
                0nat
            },
            !(self.processes[event.process_id as int].policy is Stochastic) ==> self.resume(
                event,
                rng,
            ).rng == self.rng,
    {
        let next = self.resume(event, rng);
        let trace = self.dispatched.push(event);
        assert forall|i: int, j: int| 0 <= i <= j < trace.len() implies trace[i].time
            <= trace[j].time by {
            if j < self.dispatched.len() {
                assert(self.dispatched[i].time <= self.dispatched[j].time);
            } else if i < self.dispatched.len() {
                assert(self.dispatched[i].time <= self.time);
            }
        }
        assert forall|i: int| 0 <= i < trace.len() implies (#[trigger] trace[i]).time <= next.time
            && trace[i].process_id < next.processes.len() by {
            if i < self.dispatched.len() {
                assert(trace[i] == self.dispatched[i]);
            }
        }
        assert(trace.drop_last() =~= self.dispatched);
        lemma_draws_by_policy(self.dispatched, self.processes, next.processes);
        if self.logs {
            let log = self.past_events.push(event);
            assert forall|i: int, j: int| 0 <= i <= j < log.len() implies log[i].time
                <= log[j].time by {
                if j < self.past_events.len() {
                    assert(self.past_events[i].time <= self.past_events[j].time);
                } else if i < self.past_events.len() {
                    assert(self.past_events[i].time <= self.time);
                }
            }
            assert forall|i: int| 0 <= i < log.len() implies (#[trigger] log[i]).time
                <= next.time by {
                if i < self.past_events.len() {
                    assert(log[i] == self.past_events[i]);
                }
            }
            assert(log.subrange(0, self.past_events.len() as int) =~= self.past_events);
        } else {
            assert(self.past_events.subrange(0, self.past_events.len() as int)
                =~= self.past_events);
        }
        assert(trace.subrange(0, self.dispatched.len() as int) =~= self.dispatched);
    }

    /// Marking a registered process as run to its end keeps the invariant.
    pub proof fn lemma_complete(self, id: usize)
        requires
            self.wf(),
            id < self.processes.len(),
        ensures
            self.complete(id).wf(),
            self.precedes(self.complete(id)),
    {
        lemma_draws_by_policy(self.dispatched, self.processes, self.complete(id).processes);
        self.lemma_precedes_itself();
    }

    /// Keeping a failure for a registered process keeps the invariant.
    pub proof fn lemma_failed(self, id: usize, failure: Option<SimError>)
        requires
            self.wf(),
            id < self.processes.len(),
        ensures
            self.failed(id, failure).wf(),
            self.precedes(self.failed(id, failure)),
    {
        lemma_draws_by_policy(self.dispatched, self.processes, self.failed(id, failure).processes);
        self.lemma_precedes_itself();
    }

    /// Logging a yielded value keeps the invariant.
    pub proof fn lemma_record(self, id: usize, value: T)
        requires
            self.wf(),
            id < self.processes.len(),
        ensures
            self.record(id, value).wf(),
            self.precedes(self.record(id, value)),
    {
        self.lemma_precedes_itself();
    }

    /// Offering a process its next event keeps the invariant: the event, if it
    /// is scheduled, is due later than now and not after the horizon.
    pub proof fn lemma_pace(self, id: usize, delta: u64, value: T)
        requires
            self.wf(),
        ensures
            self.pace(id, delta, value).wf(),
            self.precedes(self.pace(id, delta, value)),
    {
        let policy = self.processes[id as int].policy;
        if !(policy is Standard) && delta > 0 && self.time + delta <= self.stop && policy.admits(
            (self.time + delta) as u64,
        ) {
            self.lemma_schedule(
                Event { time: (self.time + delta) as u64, process_id: id, state: value },
            );
        } else {
            self.lemma_precedes_itself();
        }
    }

    /// Replacing a pool by one that keeps its invariant and its capacity keeps
    /// the invariant of the kernel.
    pub proof fn lemma_with_pool(self, r: usize, pool: PoolView<T>)
        requires
            self.wf(),
            r < self.resources.len(),
            pool.wf(),
            pool.capacity == self.resources[r as int].capacity,
        ensures
            self.with_pool(r, pool).wf(),
            self.precedes(self.with_pool(r, pool)),
    {
        self.lemma_precedes_itself();
    }

    /// Replacing a buffer by one that keeps its invariant and its capacity
    /// keeps the invariant of the kernel.
    pub proof fn lemma_with_buffer(self, c: usize, buffer: BufferView)
        requires
            self.wf(),
            c < self.containers.len(),
            buffer.wf(),
            buffer.capacity == self.containers[c as int].capacity,
        ensures
            self.with_buffer(c, buffer).wf(),
            self.precedes(self.with_buffer(c, buffer)),
    {
        self.lemma_precedes_itself();
    }

    /// Replacing a queue by one that keeps its invariant and its capacity
    /// keeps the invariant of the kernel.
    pub proof fn lemma_with_queue(self, q: usize, queue: QueueView<T>)
        requires
            self.wf(),
            q < self.stores.len(),
            queue.wf(),
            queue.capacity == self.stores[q as int].capacity,
        ensures
            self.with_queue(q, queue).wf(),
            self.precedes(self.with_queue(q, queue)),
    {
        self.lemma_precedes_itself();
    }

    /// Carrying out an intent of a registered process keeps the invariant,
    /// the clock, the records and the registry's size.
    pub proof fn lemma_act(self, id: usize, value: T, intent: Yield)
        requires
            self.wf(),
            id < self.processes.len(),
        ensures
            match self.act(id, value, intent) {
                Ok((next, parked)) => {
                    &&& next.wf()
                    &&& self.precedes(next)
                    &&& next.time == self.time
                    &&& self.same_records(next)
                },
                Err(e) => e == SimError::UnknownId || e == SimError::Overflow,
            },
    {
        let here = Event { time: self.time, process_id: id, state: value };
        match intent {
            Yield::Timeout(delta) => {
                self.lemma_offer(id, delta, value);
            },
            Yield::Pause => {
                self.lemma_precedes_itself();
            },
            Yield::AddEvent { time_delta, process_id } => {
                self.lemma_inject(process_id, time_delta, value);
            },
            Yield::RequestResource(r) => {
                if r < self.resources.len() {
                    let (pool, answer) = self.resources[r as int].request(here);
                    assert(self.resources[r as int].wf());
                    self.lemma_with_pool(r, pool);
                }
            },
            Yield::ReleaseResource(r) => {
                if r < self.resources.len() {
                    let (pool, answer) = self.resources[r as int].release(here);
                    assert(self.resources[r as int].wf());
                    match answer {
                        Ok(Some(waiter)) => {
                            let middle = self.with_pool(r, pool);
                            self.lemma_with_pool(r, pool);
                            middle.lemma_schedule(waiter);
                            self.lemma_precedes_is_transitive(middle, middle.schedule(waiter));
                        },
                        Ok(None) => {
                            self.lemma_with_pool(r, pool);
                        },
                        Err(e) => {},
                    }
                }
            },
            Yield::GetContainer(c) => {
                if c < self.containers.len() {
                    let (buffer, answer) = self.containers[c as int].get(value.number());
                    assert(self.containers[c as int].wf());
                    let middle = self.with_buffer(c, buffer);
                    let failure = match answer {
                        Ok(_) => None,
                        Err(e) => Some(e),
                    };
                    self.lemma_with_buffer(c, buffer);
                    middle.lemma_failed(id, failure);
                    self.lemma_precedes_is_transitive(middle, middle.failed(id, failure));
                }
            },
            Yield::PutContainer(c) => {
                if c < self.containers.len() {
                    let (buffer, answer) = self.containers[c as int].put(value.number());
                    assert(self.containers[c as int].wf());
                    let middle = self.with_buffer(c, buffer);
                    let failure = match answer {
                        Ok(_) => None,
                        Err(e) => Some(e),
                    };
                    self.lemma_with_buffer(c, buffer);
                    middle.lemma_failed(id, failure);
                    self.lemma_precedes_is_transitive(middle, middle.failed(id, failure));
                }
            },
            Yield::GetStore(q) => {
                if q < self.stores.len() {
                    let (queue, answer) = self.stores[q as int].get(here);
                    assert(self.stores[q as int].wf());
                    let middle = self.with_queue(q, queue);
                    self.lemma_with_queue(q, queue);
                    match answer {
                        Ok(item) => {
                            middle.lemma_schedule(item);
                            self.lemma_precedes_is_transitive(middle, middle.schedule(item));
                        },
                        Err(_) => {},
                    }
                }
            },
            Yield::PutStore(q) => {
                if q < self.stores.len() {
                    let (queue, answer) = self.stores[q as int].put(here);
                    assert(self.stores[q as int].wf());
                    let middle = self.with_queue(q, queue);
                    self.lemma_with_queue(q, queue);
                    match answer {
                        Ok(Some(consumer)) => {
                            middle.lemma_schedule(consumer);
                            self.lemma_precedes_is_transitive(middle, middle.schedule(consumer));
                        },
                        Ok(None) => {},
                        Err(_) => {},
                    }
                }
            },
        }
    }

    /// Interpreting what a process yielded keeps the invariant, the clock and
    /// the records. Where the intent cannot be carried
    /// out, nothing changes; the only reasons are a resource that does not
    /// exist, a process that is not registered, and a pool with no unit
    /// outstanding.
    pub proof fn lemma_interpret(self, id: usize, delta: u64, value: T, intent: Yield)
        requires
            self.wf(),
        ensures
            self.interpret(id, delta, value, intent).0.wf(),
            self.precedes(self.interpret(id, delta, value, intent).0),
            self.interpret(id, delta, value, intent).0.time == self.time,
            self.same_records(self.interpret(id, delta, value, intent).0),
            match self.interpret(id, delta, value, intent).1 {
                Ok(_) => true,
                Err(e) => self.interpret(id, delta, value, intent).0 == self && (e
                    == SimError::UnknownId || e == SimError::Overflow),
            },
    {
        if id >= self.processes.len() {
            self.lemma_precedes_itself();
        } else {
            self.lemma_act(id, value, intent);
            match self.act(id, value, intent) {
                Err(e) => {
                    self.lemma_precedes_itself();
                },
                Ok((next, parked)) => {
                    let logged = next.record(id, value);
                    next.lemma_record(id, value);
                    self.lemma_precedes_is_transitive(next, logged);
                    if !parked {
                        logged.lemma_pace(id, delta, value);
                        self.lemma_precedes_is_transitive(logged, logged.pace(id, delta, value));
                    }
                },
            }
        }
    }

    /// Concluding a dispatch keeps the invariant, the clock and the records.
    pub proof fn lemma_conclude(self, id: usize, delta: u64, outcome: Outcome<T>, intent: Yield)
        requires
            self.wf(),
            id < self.processes.len(),
        ensures
            self.conclude(id, delta, outcome, intent).0.wf(),
            self.precedes(self.conclude(id, delta, outcome, intent).0),
            self.conclude(id, delta, outcome, intent).0.time == self.time,
            self.same_records(self.conclude(id, delta, outcome, intent).0),
            match self.conclude(id, delta, outcome, intent).1 {
                Ok(done) => done == Step::Yielded || done == Step::Completed,
                Err(e) => e == SimError::UnknownId || e == SimError::Overflow,
            },
    {
        match outcome {
            Outcome::Complete => {
                self.lemma_complete(id);
            },
            Outcome::Yielded(value) => {
                self.lemma_interpret(id, delta, value, intent);
            },
        }
    }

    /// One dispatch step keeps the invariant. The clock does not go back and
    /// does not pass the horizon. A step fails only on an event for a process
    /// that is not registered or has run to its end, on a resource that does
    /// not exist, and on a pool with no unit outstanding. A step that hands no
    /// event over makes no call and leaves the random stream as it was. A step
    /// that hands an event over asks the policy of the process first, a rule
    /// with the time of the event, and then resumes the process with the
    /// payload of the event, the time of the event and the last failure of
    /// the process; the random stream is left as it was unless the process
    /// draws its delays.
    pub proof fn lemma_steps_to(self, after: Self, done: Result<Step, SimError>)
        requires
            self.wf(),
            self.steps_to(after, done),
        ensures
            after.wf(),
            self.precedes(after),
            self.time <= after.time <= self.stop,
            done == Ok::<Step, SimError>(Step::Idle) <==> self.events.len() == 0,
            done matches Err(e) ==> e == SimError::UnknownId || e == SimError::TerminatedProcess
                || e == SimError::Overflow,
            !self.resumes() ==> self.same_records(after),
            self.resumes() ==> after.dispatched == self.dispatched.push(self.events[0]),
            self.resumes() ==> after.handed == (self.handed + self.advance().asks(
                self.events[0].process_id,
            )).push(
                Call::Resume {
                    process_id: self.events[0].process_id,
                    input: self.advance().input(self.events[0]),
                },
            ),
            self.resumes() && !(self.processes[self.events[0].process_id as int].policy
                is Stochastic) ==> after.rng == self.rng,
    {
        let answer = choose|answer: Answer<T>|
            self.expects(answer) && (#[trigger] self.step_with(answer)) == (after, done);
        self.lemma_step_with(answer);
    }

    /// One dispatch step with a given answer keeps the invariant, with all
    /// that holds of a step whatever the answer is.
    pub proof fn lemma_step_with(self, answer: Answer<T>)
        requires
            self.wf(),
        ensures
            self.step_with(answer).0.wf(),
            self.precedes(self.step_with(answer).0),
            self.time <= self.step_with(answer).0.time <= self.stop,
            self.step_with(answer).1 == Ok::<Step, SimError>(Step::Idle) <==> self.events.len()
                == 0,
            self.step_with(answer).1 matches Err(e) ==> e == SimError::UnknownId || e
                == SimError::TerminatedProcess || e == SimError::Overflow,
            self.logged_all() ==> self.step_with(answer).0.logged_all(),
            !self.resumes() ==> self.same_records(self.step_with(answer).0),
            self.resumes() ==> self.step_with(answer).0.dispatched == self.dispatched.push(
                self.events[0],
            ),
            self.resumes() ==> self.step_with(answer).0.handed == (self.handed
                + self.advance().asks(self.events[0].process_id)).push(
                Call::Resume {
                    process_id: self.events[0].process_id,
                    input: self.advance().input(self.events[0]),
                },
            ),
            self.resumes() && !(self.processes[self.events[0].process_id as int].policy
                is Stochastic) ==> self.step_with(answer).0.rng == self.rng,
    {
        if self.events.len() == 0 {
            self.lemma_precedes_itself();
        } else {
            let event = self.events[0];
            let begun = self.advance();
            self.lemma_advance();
            match begun.screen(event) {
                Err(e) => {},
                Ok(false) => {},
                Ok(true) => {
                    let resumed = begun.resume(event, answer.rng);
                    begun.lemma_resume(event, answer.rng);
                    resumed.lemma_conclude(
                        event.process_id,
                        answer.delta,
                        answer.outcome,
                        answer.intent,
                    );
                    self.lemma_precedes_is_transitive(begun, resumed);
                    self.lemma_precedes_is_transitive(resumed, self.step_with(answer).0);
                },
            }
        }
    }

    /// A run keeps the invariant, whatever answers it gets, and what it
    /// reaches follows from the kernel it started from.
    pub proof fn lemma_run_with(self, answers: Seq<Answer<T>>)
        requires
            self.wf(),
        ensures
            self.run_with(answers).wf(),
            self.precedes(self.run_with(answers)),
            self.logged_all() ==> self.run_with(answers).logged_all(),
        decreases answers.len(),
    {
        if answers.len() == 0 {
            self.lemma_precedes_itself();
        } else {
            let before = self.run_with(answers.drop_last());
            self.lemma_run_with(answers.drop_last());
            before.lemma_step_with(answers.last());
            self.lemma_precedes_is_transitive(before, self.run_with(answers));
        }
    }

    /// One more step after a run is a run with one more answer.
    pub proof fn lemma_run_with_push(self, answers: Seq<Answer<T>>, answer: Answer<T>)
        ensures
            self.run_with(answers.push(answer)) == self.run_with(answers).step_with(answer).0,
            self.runs_through(answers.push(answer)) == (self.runs_through(answers)
                && self.run_with(answers).expects(answer) && self.run_with(answers).events.len()
                > 0 && self.run_with(answers).step_with(answer).1 is Ok),
    {
        assert(answers.push(answer).drop_last() =~= answers);
    }

    /// A run is determined by the kernel it starts from and by the answers it
    /// gets: two runs from one kernel that get the same answers end with the
    /// same kernel and the same result.
    pub proof fn lemma_run_is_determined(
        self,
        answers: Seq<Answer<T>>,
        last: Answer<T>,
        first: (Self, Result<(), SimError>),
        second: (Self, Result<(), SimError>),
    )
        requires
            self.ends_with(answers, last, first.0, first.1),
            self.ends_with(answers, last, second.0, second.1),
        ensures
            first == second,
    {
        let ended = self.run_with(answers).step_with(last);
        assert(first.0 == ended.0 && second.0 == ended.0);
        match (first.1, second.1) {
            (Ok(a), Ok(b)) => {
                assert(a == b);
            },
            (Err(a), Err(b)) => {
                assert(ended.1 == Err::<Step, SimError>(a));
                assert(ended.1 == Err::<Step, SimError>(b));
            },
            (Ok(_), Err(b)) => {
                assert(ended.1 == Err::<Step, SimError>(b));
            },
            (Err(a), Ok(_)) => {
                assert(ended.1 == Err::<Step, SimError>(a));
            },
        }
    }

    /// Time is monotone: of two dispatched events, the one dispatched first
    /// is not due later than the other, and the clock is not behind either.
    pub proof fn lemma_time_is_monotone(self, i: int, j: int)
        requires
            self.wf(),
            0 <= i <= j < self.dispatched.len(),
        ensures
            self.dispatched[i].time <= self.dispatched[j].time <= self.time,
    {
    }

    /// No event that is due after the horizon is dispatched, and none is
    /// pending.
    pub proof fn lemma_nothing_after_the_horizon(self)
        requires
            self.wf(),
        ensures
            self.time <= self.stop,
            forall|i: int|
                0 <= i < self.dispatched.len() ==> (#[trigger] self.dispatched[i]).time
                    <= self.stop,
            forall|i: int|
                0 <= i < self.past_events.len() ==> (#[trigger] self.past_events[i]).time
                    <= self.stop,
            forall|i: int|
                0 <= i < self.events.len() ==> (#[trigger] self.events[i]).time <= self.stop,
    {
    }

    /// The random stream is drawn from once for each event that is handed to
    /// a process that draws its delays, and never otherwise.
    pub proof fn lemma_one_draw_for_each_stochastic_dispatch(self)
        requires
            self.wf(),
        ensures
            self.samples == draws(self.dispatched, self.processes),
    {
    }

    /// Every pool accounts for its units, every buffer is within its bounds,
    /// and every queue is within its capacity, with consumers waiting only
    /// while it is empty.
    pub proof fn lemma_resources_keep_their_bounds(self)
        requires
            self.wf(),
        ensures
            forall|i: int|
                0 <= i < self.resources.len() ==> (#[trigger] self.resources[i]).available
                    + self.resources[i].holders == self.resources[i].capacity,
            forall|i: int|
                0 <= i < self.containers.len() ==> 0 <= (#[trigger] self.containers[i]).level
                    <= self.containers[i].capacity,
            forall|i: int|
                0 <= i < self.stores.len() ==> (#[trigger] self.stores[i]).items.len()
                    <= self.stores[i].capacity && (self.stores[i].pending_gets.len() > 0
                    ==> self.stores[i].items.len() == 0),
    {
        assert forall|i: int| 0 <= i < self.resources.len() implies (
        #[trigger] self.resources[i]).available + self.resources[i].holders
            == self.resources[i].capacity by {
            assert(self.resources[i].wf());
        }
        assert forall|i: int| 0 <= i < self.containers.len() implies 0 <= (
        #[trigger] self.containers[i]).level <= self.containers[i].capacity by {
            assert(self.containers[i].wf());
        }
        assert forall|i: int| 0 <= i < self.stores.len() implies (
        #[trigger] self.stores[i]).items.len() <= self.stores[i].capacity && (
        self.stores[i].pending_gets.len() > 0 ==> self.stores[i].items.len() == 0) by {
            assert(self.stores[i].wf());
        }
    }

    /// What a buffer refused reaches the process: where a failure is kept for
    /// a process, the next event that is handed to the process resumes it with
    /// that failure, and the failure is then no longer kept.
    pub proof fn lemma_refusal_is_told(self, event: Event<T>, rng: StdRng)
        requires
            self.wf(),
            event.time == self.time,
            self.screen(event) == Ok::<bool, SimError>(true),
        ensures
            self.resume(event, rng).handed.last() == (Call::Resume {
                process_id: event.process_id,
                input: State {
                    state: event.state,
                    time: self.time,
                    error: self.processes[event.process_id as int].failure,
                },
            }),
            self.resume(event, rng).processes[event.process_id as int].failure is None,
    {
    }
}

} // verus!
