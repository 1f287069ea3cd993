//! Ready-made processes that perform a task at each of their events and
//! schedule their next event themselves: one tick ahead, or a sampled delay
//! ahead, and inside a window of time where they have one.

use crate::environment::is_default;
use crate::environment::Environment;
use crate::environment::EventYield;
use crate::resources::Arithmetic;
use rand::rngs::ThreadRng;
use vstd::prelude::*;

verus! {

/// The generator of `rand` that belongs to the current thread. Nothing is
/// known of what it holds.
#[verifier::external_type_specification]
#[verifier::external_body]
pub struct ExThreadRng(ThreadRng);

/// Calls `rand::thread_rng`, which hands out the generator of the current
/// thread. The generator is seeded by the system, so nothing is claimed of it.
/// The first call in a thread fails where the system has no entropy to give.
#[verifier::external_body]
fn thread_generator() -> ThreadRng {
    rand::thread_rng()
}

/// What a ready-made process does at each of its events. Nothing is promised
/// of it.
pub trait Task {
    /// Does the work of one event.
    fn perform(&self);
}

/// A distribution of delays, in ticks, sampled from the generator of a
/// thread. Nothing is promised of the delay that comes back.
pub trait Distribution {
    /// Samples the delay to the next event.
    fn sample(&self, rng: &mut ThreadRng) -> u64;
}

/// Whether a process paces itself by a fixed rule or by chance.
#[derive(Clone, Copy, Debug, PartialEq, Eq, Structural)]
pub enum ProcessType {
    /// The process is executed deterministically in simulation time.
    Deterministic,
    /// The process is executed stochastically in simulation time.
    Stochastic,
}

/// Whether a process runs in a window or until the simulation ends.
#[derive(Clone, Copy, Debug, PartialEq, Eq, Structural)]
pub enum ProcessDuration {
    /// The process is executed for a finite amount of time.
    Finite,
    /// The process is executed until the simulation ends.
    Infinite,
}

/// Whether a process with the window from `start` to `end` schedules its next
/// event at the time `now`: it does from `start` on and before `end`.
pub open spec fn in_window(start: u64, end: u64, now: u64) -> bool {
    start <= now < end
}

/// A process that performs its task and schedules its next event.
pub trait Process {
    /// Performs the task of the process once and schedules its next event.
    fn run<T: EventYield + Clone + Default + PartialOrd + Arithmetic>(
        &mut self,
        env: &mut Environment<T>,
    )
        requires
            old(env).wf(),
        ensures
            final(env).wf(),
    ;
}

/// A process that performs its task every tick until the simulation ends.
pub struct StandardProcess {
    /// The id of the process.
    pub process_id: u16,
    /// The name of the process.
    pub process_name: String,
    /// How the process paces itself.
    pub process_type: ProcessType,
    /// How long the process runs.
    pub process_duration: ProcessDuration,
    /// The task that is performed at each event.
    pub process: Box<dyn Task>,
}

impl StandardProcess {
    /// A process with the given id and name that performs `process` every
    /// tick.
    pub fn new(process_id: u16, process_name: String, process: Box<dyn Task>) -> (new: Self)
        ensures
            new == (StandardProcess {
                process_id,
                process_name,
                process_type: ProcessType::Deterministic,
                process_duration: ProcessDuration::Infinite,
                process,
            }),
    {
        StandardProcess {
            process_id,
            process_name,
            process_type: ProcessType::Deterministic,
            process_duration: ProcessDuration::Infinite,
            process,
        }
    }

    /// Offers the environment the next event of the process, one tick ahead
    /// and carrying a default value.
    pub fn add_new_event<T: EventYield + Clone + Default + PartialOrd + Arithmetic>(
        &mut self,
        env: &mut Environment<T>,
    )
        requires
            old(env).wf(),
        ensures
            final(env).wf(),
            *final(self) == *old(self),
            exists|state: T| #[trigger]
                is_default(state) && final(env)@ == old(env)@.offer(
                    old(self).process_id as usize,
                    1,
                    state,
                ),
    {
        let state = T::default();
        env.add_events(self.process_id as usize, 1, state);
        proof {
            assert(is_default(state));
        }
    }
}

impl Process for StandardProcess {
    fn run<T: EventYield + Clone + Default + PartialOrd + Arithmetic>(
        &mut self,
        env: &mut Environment<T>,
    )
        ensures
            *final(self) == *old(self),
            exists|state: T| #[trigger]
                is_default(state) && final(env)@ == old(env)@.offer(
                    old(self).process_id as usize,
                    1,
                    state,
                ),
    {
        self.process.perform();
        self.add_new_event(env);
    }
}

/// A process that performs its task every tick inside a window of time.
pub struct FixedProcess {
    /// The id of the process.
    pub process_id: u16,
    /// The name of the process.
    pub process_name: String,
    /// How the process paces itself.
    pub process_type: ProcessType,
    /// How long the process runs.
    pub process_duration: ProcessDuration,
    /// The task that is performed at each event.
    pub process: Box<dyn Task>,
    /// The time from which the process schedules events.
    pub process_start_event: u64,
    /// The time from which the process schedules no more events.
    pub process_end_event: u64,
}

impl FixedProcess {
    /// Offers the environment the next event of the process, one tick ahead
    /// and carrying a default value, while the clock is inside the window.
    pub fn add_new_event<T: EventYield + Clone + Default + PartialOrd + Arithmetic>(
        &mut self,
        env: &mut Environment<T>,
    )
        requires
            old(env).wf(),
        ensures
            final(env).wf(),
            *final(self) == *old(self),
            !in_window(
                old(self).process_start_event,
                old(self).process_end_event,
                old(env)@.time,
            ) ==> final(env)@ == old(env)@,
            in_window(old(self).process_start_event, old(self).process_end_event, old(env)@.time)
                ==> exists|state: T| #[trigger]
                is_default(state) && final(env)@ == old(env)@.offer(
                    old(self).process_id as usize,
                    1,
                    state,
                ),
    {
        let now = env.current_time();
        if now < self.process_end_event && now >= self.process_start_event {
            let state = T::default();
            env.add_events(self.process_id as usize, 1, state);
            proof {
                assert(is_default(state));
            }
        }
    }
}

impl Process for FixedProcess {
    fn run<T: EventYield + Clone + Default + PartialOrd + Arithmetic>(
        &mut self,
        env: &mut Environment<T>,
    )
        ensures
            *final(self) == *old(self),
            !in_window(
                old(self).process_start_event,
                old(self).process_end_event,
                old(env)@.time,
            ) ==> final(env)@ == old(env)@,
            in_window(old(self).process_start_event, old(self).process_end_event, old(env)@.time)
                ==> exists|state: T| #[trigger]
                is_default(state) && final(env)@ == old(env)@.offer(
                    old(self).process_id as usize,
                    1,
                    state,
                ),
    {
        self.process.perform();
        self.add_new_event(env);
    }
}

/// Whether `state` is a default value and `after` is the kernel `before`
/// after an event for the process `id` has been offered, due `delta` ticks
/// from now and carrying `state`.
pub open spec fn offered<T: Arithmetic + Default>(
    before: crate::kernel::Kernel<T>,
    after: crate::kernel::Kernel<T>,
    id: u16,
    delta: u64,
    state: T,
) -> bool {
    is_default(state) && after == before.offer(id as usize, delta, state)
}

/// A process that performs its task after sampled delays until the
/// simulation ends.
pub struct StandardRandom {
    /// The id of the process.
    pub process_id: u16,
    /// The name of the process.
    pub process_name: String,
    /// How the process paces itself.
    pub process_type: ProcessType,
    /// How long the process runs.
    pub process_duration: ProcessDuration,
    /// The task that is performed at each event.
    pub process: Box<dyn Task>,
    /// The distribution that the delays are sampled from.
    pub execution_distribution: Box<dyn Distribution>,
}

impl StandardRandom {
    /// A process with the given id and name that performs `process` after
    /// delays sampled from `execution_distribution`.
    pub fn new(
        process_id: u16,
        process_name: String,
        process: Box<dyn Task>,
        execution_distribution: Box<dyn Distribution>,
    ) -> (new: Self)
        ensures
            new == (StandardRandom {
                process_id,
                process_name,
                process_type: ProcessType::Stochastic,
                process_duration: ProcessDuration::Infinite,
                process,
                execution_distribution,
            }),
    {
        StandardRandom {
            process_id,
            process_name,
            process_type: ProcessType::Stochastic,
            process_duration: ProcessDuration::Infinite,
            process,
            execution_distribution,
        }
    }

    /// Offers the environment the next event of the process, a sampled delay
    /// ahead and carrying a default value.
    pub fn add_new_event<T: EventYield + Clone + Default + PartialOrd + Arithmetic>(
        &mut self,
        env: &mut Environment<T>,
    )
        requires
            old(env).wf(),
        ensures
            final(env).wf(),
            *final(self) == *old(self),
            exists|delta: u64, state: T| #[trigger]
                offered(old(env)@, final(env)@, old(self).process_id, delta, state),
    {
        let mut rng = thread_generator();
        let time_delta = self.execution_distribution.sample(&mut rng);
        let state = T::default();
        env.add_events(self.process_id as usize, time_delta, state);
        proof {
            assert(offered(old(env)@, env@, self.process_id, time_delta, state));
        }
    }
}

impl Process for StandardRandom {
    fn run<T: EventYield + Clone + Default + PartialOrd + Arithmetic>(
        &mut self,
        env: &mut Environment<T>,
    )
        ensures
            *final(self) == *old(self),
            exists|delta: u64, state: T| #[trigger]
                offered(old(env)@, final(env)@, old(self).process_id, delta, state),
    {
        self.process.perform();
        self.add_new_event(env);
    }
}

/// A process that performs its task after sampled delays inside a window of
/// time.
pub struct FixedRandom {
    /// The id of the process.
    pub process_id: u16,
    /// The name of the process.
    pub process_name: String,
    /// How the process paces itself.
    pub process_type: ProcessType,
    /// How long the process runs.
    pub process_duration: ProcessDuration,
    /// The task that is performed at each event.
    pub process: Box<dyn Task>,
    /// The distribution that the delays are sampled from.
    pub execution_distribution: Box<dyn Distribution>,
    /// The time from which the process schedules events.
    pub process_start_event: u64,
    /// The time from which the process schedules no more events.
    pub process_end_event: u64,
}

impl FixedRandom {
    /// A process with the given id and name that performs `process` after
    /// delays sampled from `execution_distribution`, inside the window from
    /// `process_start_event` to `process_end_event`.
    pub fn new(
        process_id: u16,
        process_name: String,
        process: Box<dyn Task>,
        execution_distribution: Box<dyn Distribution>,
        process_start_event: u64,
        process_end_event: u64,
    ) -> (new: Self)
        ensures
            new == (FixedRandom {
                process_id,
                process_name,
                process_type: ProcessType::Stochastic,
                process_duration: ProcessDuration::Infinite,
                process,
                execution_distribution,
                process_start_event,
                process_end_event,
            }),
    {
        FixedRandom {
            process_id,
            process_name,
            process_type: ProcessType::Stochastic,
            process_duration: ProcessDuration::Infinite,
            process,
            execution_distribution,
            process_start_event,
            process_end_event,
        }
    }

    /// Samples a delay, and offers the environment the next event of the
    /// process, that delay ahead and carrying a default value, while the clock
    /// is inside the window.
    pub fn add_new_event<T: EventYield + Clone + Default + PartialOrd + Arithmetic>(
        &mut self,
        env: &mut Environment<T>,
    )
        requires
            old(env).wf(),
        ensures
            final(env).wf(),
            *final(self) == *old(self),
            !in_window(
                old(self).process_start_event,
                old(self).process_end_event,
                old(env)@.time,
            ) ==> final(env)@ == old(env)@,
            in_window(old(self).process_start_event, old(self).process_end_event, old(env)@.time)
                ==> exists|delta: u64, state: T| #[trigger]
                offered(old(env)@, final(env)@, old(self).process_id, delta, state),
    {
        let mut rng = thread_generator();
        let time_delta = self.execution_distribution.sample(&mut rng);
        let now = env.current_time();
        if now < self.process_end_event && now >= self.process_start_event {
            let state = T::default();
            env.add_events(self.process_id as usize, time_delta, state);
            proof {
                assert(offered(old(env)@, env@, self.process_id, time_delta, state));
            }
        }
    }
}

impl Process for FixedRandom {
    fn run<T: EventYield + Clone + Default + PartialOrd + Arithmetic>(
        &mut self,
        env: &mut Environment<T>,
    )
        ensures
            *final(self) == *old(self),
            !in_window(
                old(self).process_start_event,
                old(self).process_end_event,
                old(env)@.time,
            ) ==> final(env)@ == old(env)@,
            in_window(old(self).process_start_event, old(self).process_end_event, old(env)@.time)
                ==> exists|delta: u64, state: T| #[trigger]
                offered(old(env)@, final(env)@, old(self).process_id, delta, state),
    {
        self.process.perform();
        self.add_new_event(env);
    }
}

} // verus!
