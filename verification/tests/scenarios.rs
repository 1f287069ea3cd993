#![allow(dead_code, unused_imports)]

use aika::distribution::Distribution;
use aika::environment::{
    Environment, EventYield, Outcome, Process, ProcessDuration, ProcessExecution, State,
    TimeDelta, Yield,
};
use aika::error::SimError;
use aika::resources::{Arithmetic, Int};
use rand::rngs::StdRng;
use rand::Rng;
use std::cell::{Cell, RefCell};
use std::rc::Rc;

/// A payload: an amount, and the intent it is yielded with.
#[derive(Clone, Copy, Debug, PartialEq)]
struct Token {
    amount: i64,
    intent: Yield,
}

fn token(amount: i64, intent: Yield) -> Token {
    Token { amount, intent }
}

impl Default for Token {
    fn default() -> Token {
        Token { amount: 0, intent: Yield::Pause }
    }
}

impl PartialOrd for Token {
    fn partial_cmp(&self, other: &Token) -> Option<std::cmp::Ordering> {
        self.amount.partial_cmp(&other.amount)
    }
}

impl EventYield for Token {
    fn output(&self) -> Yield {
        self.intent
    }

    fn set(&mut self, output: Yield) {
        self.intent = output;
    }
}

impl Arithmetic for Token {
    fn number(&self) -> Int {
        unreachable!()
    }

    fn fits(_n: Int) -> bool {
        unreachable!()
    }

    fn law_between(_low: Token, _n: Int, _high: Token) {}

    fn law_zero(_zero: Token) {}

    fn law_clone(_a: Token, _b: Token) {}

    fn law_order(_a: Token, _b: Token) {}

    fn add(&self, other: Token) -> Token {
        Token { amount: self.amount + other.amount, intent: self.intent }
    }

    fn sub(&self, other: Token) -> Token {
        Token { amount: self.amount - other.amount, intent: self.intent }
    }
}

/// What a scripted process saw at one resumption.
#[derive(Clone, Debug, PartialEq)]
struct Seen {
    time: u64,
    amount: i64,
    error: Option<SimError>,
}

fn seen(time: u64, amount: i64, error: Option<SimError>) -> Seen {
    Seen { time, amount, error }
}

/// A process that yields the values of a script, one at each resumption, and
/// completes when the script is over. It notes what it was resumed with.
struct Scripted {
    script: Vec<Token>,
    next: usize,
    seen: Rc<RefCell<Vec<Seen>>>,
}

fn scripted(script: Vec<Token>) -> (Box<Scripted>, Rc<RefCell<Vec<Seen>>>) {
    let seen = Rc::new(RefCell::new(Vec::new()));
    (Box::new(Scripted { script, next: 0, seen: seen.clone() }), seen)
}

impl Process<Token> for Scripted {
    fn resume(&mut self, input: State<Token>) -> Outcome<Token> {
        self.seen.borrow_mut().push(Seen {
            time: input.time,
            amount: input.state.amount,
            error: input.error,
        });
        if self.next < self.script.len() {
            let value = self.script[self.next];
            self.next += 1;
            Outcome::Yielded(value)
        } else {
            Outcome::Complete
        }
    }
}

/// A process that yields 0, 1, 2, ... with a fixed intent, for ever.
struct Counter {
    next: i64,
    intent: Yield,
}

fn counter(intent: Yield) -> Box<Counter> {
    Box::new(Counter { next: 0, intent })
}

impl Process<Token> for Counter {
    fn resume(&mut self, _input: State<Token>) -> Outcome<Token> {
        let value = token(self.next, self.intent);
        self.next += 1;
        Outcome::Yielded(value)
    }
}

fn trace(env: &Environment<Token>) -> Vec<(u64, usize)> {
    env.history().iter().map(|e| (e.time, e.process_id)).collect()
}

fn times(env: &Environment<Token>) -> Vec<u64> {
    env.history().iter().map(|e| e.time).collect()
}

fn yielded(env: &Environment<Token>, id: usize) -> Vec<(u64, i64)> {
    env.yields(id).unwrap().iter().map(|(t, v)| (*t, v.amount)).collect()
}

fn pending(env: &Environment<Token>) -> Vec<(u64, usize, i64)> {
    env.pending().events().iter().map(|e| (e.time, e.process_id, e.state.amount)).collect()
}

/// Delays drawn from a gamma distribution and rounded to ticks.
struct GammaDelay(rand_distr::Gamma<f64>);

impl Distribution for GammaDelay {
    fn sample(&self, rng: &mut StdRng) -> u64 {
        rng.sample(self.0).round() as u64
    }
}

/// Delays drawn uniformly from 0 to 3 ticks; every draw is counted.
struct CountedDelay(Rc<Cell<usize>>);

impl Distribution for CountedDelay {
    fn sample(&self, rng: &mut StdRng) -> u64 {
        self.0.set(self.0.get() + 1);
        rng.gen_range(0..4)
    }
}

/// The delay to the next event is the current time plus one.
struct Doubling;

impl TimeDelta for Doubling {
    fn delta(&self, now: u64) -> u64 {
        now + 1
    }
}

#[test]
fn setup_simple_des() {
    let seed = 223u64;
    let mut env = Environment::<Token>::new(100, seed);
    env.set_logs(true);
    let buffer = env.create_containers(token(1000, Yield::Pause), token(300, Yield::Pause));
    assert_eq!(buffer, Ok(0));
    let gamma = GammaDelay(rand_distr::Gamma::new(7.0, 1.0).unwrap());
    let taker = env.add_process(
        counter_from(1, Yield::GetContainer(0)),
        ProcessExecution::Stochastic(Box::new(gamma), ProcessDuration::Infinite(0)),
    );
    let giver = env.add_process(
        counter_from(1, Yield::PutContainer(0)),
        ProcessExecution::Constant(10, ProcessDuration::Infinite(0)),
    );
    assert_eq!((taker, giver), (0, 1));
    assert_eq!(env.run(), Ok(()));
    assert!(env.current_time() <= 100);
    let level = env.container(0).unwrap().level().amount;
    assert!(0 <= level && level <= 1000);
    assert_eq!(env.container(0).unwrap().capacity().amount, 1000);
    let gives: i64 = yielded(&env, 1).iter().map(|(_, a)| *a).sum();
    assert_eq!(yielded(&env, 1).len(), 11);
    assert_eq!(gives, 66);
}

/// A process that yields `first`, `first + 1`, ... with a fixed intent.
fn counter_from(first: i64, intent: Yield) -> Box<Counter> {
    Box::new(Counter { next: first, intent })
}

#[test]
fn constant_periodic_in_a_finite_window() {
    let mut env = Environment::<Token>::new(100, 1);
    env.set_logs(true);
    let id = env.add_process(
        counter(Yield::Timeout(0)),
        ProcessExecution::Constant(1, ProcessDuration::Finite(0, 10)),
    );
    assert_eq!(id, 0);
    assert_eq!(env.run(), Ok(()));
    assert_eq!(times(&env), vec![0, 1, 2, 3, 4, 5, 6, 7, 8, 9, 10]);
    assert_eq!(
        yielded(&env, 0),
        vec![(0, 0), (1, 1), (2, 2), (3, 3), (4, 4), (5, 5), (6, 6), (7, 7), (8, 8), (9, 9), (10, 10)]
    );
    assert_eq!(env.current_time(), 10);
    assert_eq!(env.pending().len(), 0);
}

fn seeded_run(seed: u64) -> (Vec<(u64, usize)>, Vec<(u64, i64)>) {
    let mut env = Environment::<Token>::new(100, seed);
    env.set_logs(true);
    let gamma = GammaDelay(rand_distr::Gamma::new(7.0, 1.0).unwrap());
    env.add_process(
        counter(Yield::Timeout(0)),
        ProcessExecution::Stochastic(Box::new(gamma), ProcessDuration::Finite(0, 60)),
    );
    assert_eq!(env.run(), Ok(()));
    (trace(&env), yielded(&env, 0))
}

#[test]
fn stochastic_runs_with_one_seed_are_identical() {
    let first = seeded_run(223);
    let second = seeded_run(223);
    assert_eq!(first, second);
    assert!(first.0.len() > 1);
    assert!(first.0.iter().all(|(t, _)| *t <= 60));
    assert_eq!(first.0[0], (0, 0));
}

#[test]
fn stochastic_runs_with_other_seeds_differ() {
    let base = seeded_run(223);
    let others: Vec<_> = (1u64..6).map(seeded_run).collect();
    assert!(others.iter().any(|other| *other != base));
}

#[test]
fn pool_contention_wakes_the_waiter_at_the_release() {
    let mut env = Environment::<Token>::new(100, 1);
    env.set_logs(true);
    let pool = env.create_resources(1);
    let (a, seen_a) = scripted(vec![
        token(11, Yield::RequestResource(pool)),
        token(12, Yield::ReleaseResource(pool)),
        token(13, Yield::Pause),
    ]);
    let (b, seen_b) = scripted(vec![
        token(21, Yield::RequestResource(pool)),
        token(22, Yield::Pause),
    ]);
    env.add_process(a, ProcessExecution::Constant(5, ProcessDuration::Infinite(0)));
    env.add_process(b, ProcessExecution::Constant(50, ProcessDuration::Infinite(1)));
    assert_eq!(env.run(), Ok(()));
    assert_eq!(trace(&env), vec![(0, 0), (1, 1), (5, 0), (5, 1), (10, 0)]);
    assert_eq!(
        *seen_a.borrow(),
        vec![seen(0, 0, None), seen(5, 11, None), seen(10, 12, None)]
    );
    assert_eq!(*seen_b.borrow(), vec![seen(1, 0, None), seen(5, 21, None)]);
    let pool = env.resource(pool).unwrap();
    assert_eq!(pool.capacity(), 1);
    assert_eq!(pool.available(), 0);
    assert_eq!(pool.waiting(), 0);
}

#[test]
fn buffer_clamps_at_its_capacity() {
    let mut env = Environment::<Token>::new(100, 1);
    let buffer = env
        .create_containers(token(1000, Yield::Pause), token(300, Yield::Pause))
        .unwrap();
    let (p, seen_p) = scripted(vec![
        token(900, Yield::PutContainer(buffer)),
        token(900, Yield::PutContainer(buffer)),
        token(900, Yield::PutContainer(buffer)),
    ]);
    env.add_process(p, ProcessExecution::Constant(1, ProcessDuration::Finite(0, 2)));
    assert_eq!(env.step(), Ok(aika::kernel::Step::Yielded));
    assert_eq!(env.container(buffer).unwrap().level().amount, 1000);
    assert_eq!(env.run(), Ok(()));
    assert_eq!(env.container(buffer).unwrap().level().amount, 1000);
    assert_eq!(env.container(buffer).unwrap().capacity().amount, 1000);
    assert_eq!(seen_p.borrow().len(), 3);
    assert!(seen_p.borrow().iter().all(|s| s.error.is_none()));
}

#[test]
fn underflow_is_told_to_the_process_and_a_retry_succeeds() {
    let mut env = Environment::<Token>::new(100, 1);
    env.set_logs(true);
    let buffer = env
        .create_containers(token(1000, Yield::Pause), token(0, Yield::Pause))
        .unwrap();
    let (p, seen_p) = scripted(vec![
        token(5, Yield::GetContainer(buffer)),
        token(0, Yield::Pause),
        token(5, Yield::GetContainer(buffer)),
        token(0, Yield::Pause),
    ]);
    let (q, _) = scripted(vec![
        token(10, Yield::PutContainer(buffer)),
        token(77, Yield::AddEvent { time_delta: 1, process_id: 0 }),
    ]);
    env.add_process(p, ProcessExecution::Constant(1, ProcessDuration::Infinite(0)));
    env.add_process(q, ProcessExecution::Constant(1, ProcessDuration::Finite(2, 3)));
    assert_eq!(env.run(), Ok(()));
    assert_eq!(trace(&env), vec![(0, 0), (1, 0), (2, 1), (3, 1), (4, 0), (5, 0)]);
    assert_eq!(
        *seen_p.borrow(),
        vec![
            seen(0, 0, None),
            seen(1, 5, Some(SimError::ResourceUnderflow)),
            seen(4, 77, None),
            seen(5, 5, None),
        ]
    );
    assert_eq!(env.container(buffer).unwrap().level().amount, 5);
}

#[test]
fn negative_amount_is_told_to_the_process() {
    let mut env = Environment::<Token>::new(10, 1);
    let buffer = env
        .create_containers(token(10, Yield::Pause), token(4, Yield::Pause))
        .unwrap();
    let (p, seen_p) = scripted(vec![
        token(-1, Yield::GetContainer(buffer)),
        token(-2, Yield::PutContainer(buffer)),
        token(3, Yield::PutContainer(buffer)),
        token(0, Yield::Pause),
    ]);
    env.add_process(p, ProcessExecution::Constant(1, ProcessDuration::Infinite(0)));
    assert_eq!(env.run(), Ok(()));
    assert_eq!(
        *seen_p.borrow(),
        vec![
            seen(0, 0, None),
            seen(1, -1, Some(SimError::NegativeAmount)),
            seen(2, -2, Some(SimError::NegativeAmount)),
            seen(3, 3, None),
        ]
    );
    assert_eq!(env.container(buffer).unwrap().level().amount, 7);
}

#[test]
fn horizon_truncates_a_periodic_process() {
    let mut env = Environment::<Token>::new(20, 1);
    env.set_logs(true);
    env.add_process(
        counter(Yield::Timeout(0)),
        ProcessExecution::Constant(7, ProcessDuration::Infinite(0)),
    );
    assert_eq!(env.run(), Ok(()));
    assert_eq!(times(&env), vec![0, 7, 14]);
    assert_eq!(env.pending().len(), 0);
    assert_eq!(env.current_time(), 14);
    assert_eq!(env.horizon(), 20);
}

#[test]
fn an_event_at_the_horizon_is_dispatched() {
    let mut env = Environment::<Token>::new(14, 1);
    env.set_logs(true);
    env.add_process(
        counter(Yield::Timeout(0)),
        ProcessExecution::Constant(7, ProcessDuration::Infinite(0)),
    );
    assert_eq!(env.run(), Ok(()));
    assert_eq!(times(&env), vec![0, 7, 14]);
}

#[test]
fn a_horizon_of_zero_still_dispatches_time_zero() {
    let mut env = Environment::<Token>::new(0, 1);
    env.set_logs(true);
    env.add_process(counter(Yield::Timeout(0)), ProcessExecution::Standard);
    assert_eq!(env.run(), Ok(()));
    assert_eq!(trace(&env), vec![(0, 0)]);
}

#[test]
fn dispatch_times_never_decrease_and_stay_within_the_horizon() {
    let mut env = Environment::<Token>::new(40, 9);
    env.set_logs(true);
    let draws = Rc::new(Cell::new(0));
    env.add_process(
        counter(Yield::Timeout(3)),
        ProcessExecution::Stochastic(
            Box::new(CountedDelay(draws.clone())),
            ProcessDuration::Infinite(2),
        ),
    );
    env.add_process(
        counter(Yield::AddEvent { time_delta: 2, process_id: 0 }),
        ProcessExecution::Constant(9, ProcessDuration::Finite(0, 30)),
    );
    env.add_process(
        counter(Yield::Timeout(0)),
        ProcessExecution::Deterministic(Box::new(Doubling), ProcessDuration::Infinite(1)),
    );
    assert_eq!(env.run(), Ok(()));
    let times = times(&env);
    assert!(times.len() > 10);
    assert!(times.windows(2).all(|w| w[0] <= w[1]));
    assert!(times.iter().all(|t| *t <= 40));
    assert_eq!(env.pending().len(), 0);
}

#[test]
fn one_delay_is_drawn_for_each_dispatch_of_a_stochastic_process() {
    let mut env = Environment::<Token>::new(50, 4);
    env.set_logs(true);
    let draws = Rc::new(Cell::new(0));
    let drawer = env.add_process(
        counter(Yield::Timeout(2)),
        ProcessExecution::Stochastic(
            Box::new(CountedDelay(draws.clone())),
            ProcessDuration::Finite(0, 30),
        ),
    );
    env.add_process(
        counter(Yield::AddEvent { time_delta: 1, process_id: drawer }),
        ProcessExecution::Constant(4, ProcessDuration::Finite(0, 44)),
    );
    assert_eq!(env.run(), Ok(()));
    let dispatched = trace(&env).iter().filter(|(_, id)| *id == drawer).count();
    assert!(dispatched > 5);
    assert_eq!(draws.get(), dispatched);
    assert!(trace(&env).iter().all(|(t, id)| *id != drawer || *t <= 30));
}

#[test]
fn a_deterministic_rule_gives_the_delay_from_the_time() {
    let mut env = Environment::<Token>::new(100, 1);
    env.set_logs(true);
    env.add_process(
        counter(Yield::Timeout(0)),
        ProcessExecution::Deterministic(Box::new(Doubling), ProcessDuration::Infinite(0)),
    );
    assert_eq!(env.run(), Ok(()));
    assert_eq!(times(&env), vec![0, 1, 3, 7, 15, 31, 63]);
}

#[test]
fn simultaneous_events_are_dispatched_in_the_order_of_scheduling() {
    let mut env = Environment::<Token>::new(10, 1);
    env.set_logs(true);
    for _ in 0..4 {
        env.add_process(counter(Yield::Timeout(0)), ProcessExecution::Standard);
    }
    env.add_events(2, 3, token(1, Yield::Pause));
    env.add_events(0, 3, token(2, Yield::Pause));
    env.add_events(1, 2, token(3, Yield::Pause));
    env.add_events(3, 3, token(4, Yield::Pause));
    assert_eq!(
        pending(&env),
        vec![(0, 0, 0), (0, 1, 0), (0, 2, 0), (0, 3, 0), (2, 1, 3), (3, 2, 1), (3, 0, 2), (3, 3, 4)]
    );
    assert_eq!(env.run(), Ok(()));
    assert_eq!(
        trace(&env),
        vec![(0, 0), (0, 1), (0, 2), (0, 3), (2, 1), (3, 2), (3, 0), (3, 3)]
    );
}

#[test]
fn a_woken_process_runs_after_the_events_already_due_now() {
    let mut env = Environment::<Token>::new(10, 1);
    env.set_logs(true);
    let pool = env.create_resources(0);
    let (waiter, _) = scripted(vec![token(1, Yield::RequestResource(pool)), token(2, Yield::Pause)]);
    let (releaser, _) = scripted(vec![token(3, Yield::ReleaseResource(pool))]);
    let (bystander, _) = scripted(vec![token(4, Yield::Pause)]);
    env.add_process(waiter, ProcessExecution::Standard);
    env.add_process(releaser, ProcessExecution::Constant(1, ProcessDuration::Finite(4, 4)));
    env.add_process(bystander, ProcessExecution::Constant(1, ProcessDuration::Finite(4, 4)));
    assert_eq!(env.run(), Ok(()));
    assert_eq!(trace(&env), vec![(0, 0), (4, 1), (4, 2), (4, 0)]);
}

#[test]
fn logging_is_off_until_it_is_turned_on() {
    let mut env = Environment::<Token>::new(5, 1);
    assert!(!env.logs());
    env.add_process(
        counter(Yield::Timeout(0)),
        ProcessExecution::Constant(1, ProcessDuration::Infinite(0)),
    );
    assert_eq!(env.step(), Ok(aika::kernel::Step::Yielded));
    assert_eq!(env.step(), Ok(aika::kernel::Step::Yielded));
    assert!(env.history().is_empty());
    assert!(yielded(&env, 0).is_empty());
    env.set_logs(true);
    assert!(env.logs());
    assert_eq!(env.run(), Ok(()));
    assert_eq!(times(&env), vec![2, 3, 4, 5]);
    assert_eq!(yielded(&env, 0), vec![(2, 2), (3, 3), (4, 4), (5, 5)]);
}

#[test]
fn the_last_value_yielded_at_a_time_stays_in_the_log() {
    let mut env = Environment::<Token>::new(5, 1);
    env.set_logs(true);
    let (p, _) = scripted(vec![token(1, Yield::Timeout(0)), token(2, Yield::Timeout(0))]);
    let id = env.add_process(p, ProcessExecution::Standard);
    env.add_events(id, 1, token(0, Yield::Pause));
    assert_eq!(env.step(), Ok(aika::kernel::Step::Yielded));
    assert_eq!(env.interpret(id, 0, token(9, Yield::Pause), Yield::Pause), Ok(()));
    assert_eq!(yielded(&env, id), vec![(0, 9)]);
    assert_eq!(env.run(), Ok(()));
    assert_eq!(yielded(&env, id), vec![(0, 9), (1, 2)]);
}
