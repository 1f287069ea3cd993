//! Running several simulations one after the other and collecting what they
//! logged.

use crate::environment::Environment;
use crate::environment::EventYield;
use crate::error::SimError;
use crate::kernel::Kernel;
use crate::resources::Arithmetic;
use std::collections::BTreeMap;
use vstd::prelude::*;

verus! {

/// What a manager holds, as plain values.
pub struct ManagerView<T> {
    /// The simulations, in the order in which they were added.
    pub simulations: Seq<Kernel<T>>,
    /// For each simulation that has run, the logs of its processes.
    pub stores: Seq<Seq<Map<u64, T>>>,
}

impl<T: Arithmetic> ManagerView<T> {
    /// Whether `after` is this manager after its first `count` simulations
    /// have run to their end, one after the other: each of them ended well, the
    /// simulations behind the next one are untouched, and the logs of the ones
    /// that ran were collected in their order.
    pub open spec fn ran_first(self, after: Self, count: int) -> bool {
        &&& after.simulations.len() == self.simulations.len()
        &&& 0 <= count <= self.simulations.len()
        &&& forall|i: int|
            0 <= i < count ==> self.simulations[i].runs_to(
                #[trigger] after.simulations[i],
                Ok::<(), SimError>(()),
            )
        &&& forall|i: int|
            count < i < self.simulations.len() ==> (#[trigger] after.simulations[i])
                == self.simulations[i]
        &&& after.stores == self.stores + Seq::new(
            count as nat,
            |i: int| after.simulations[i].yields,
        )
    }

    /// What a run of the manager can make of it: every simulation ran and
    /// ended well, or the first that failed ended the run with its failure.
    pub open spec fn runs_to(self, after: Self, done: Result<(), SimError>) -> bool {
        match done {
            Ok(_) => self.ran_first(after, self.simulations.len() as int),
            Err(e) => exists|count: int|
                #![trigger self.ran_first(after, count)]
                self.ran_first(after, count) && count < self.simulations.len()
                    && self.simulations[count].runs_to(
                    after.simulations[count],
                    Err::<(), SimError>(e),
                ),
        }
    }
}

/// A series of simulations and the values that they logged.
#[verifier::reject_recursive_types(T)]
pub struct Manager<T: EventYield + Clone> {
    simulations: Vec<Environment<T>>,
    stores: Vec<Vec<BTreeMap<u64, T>>>,
}

impl<T: EventYield + Clone + Default + PartialOrd + Arithmetic> View for Manager<T> {
    type V = ManagerView<T>;

    closed spec fn view(&self) -> ManagerView<T> {
        ManagerView {
            simulations: self.simulations@.map_values(|simulation: Environment<T>| simulation@),
            stores: self.stores@.map_values(
                |logs: Vec<BTreeMap<u64, T>>| logs@.map_values(|log: BTreeMap<u64, T>| log@),
            ),
        }
    }
}

impl<T: EventYield + Clone + Default + PartialOrd + Arithmetic> Manager<T> {
    /// The invariant of a manager: each of its simulations keeps its own.
    pub open spec fn wf(&self) -> bool {
        forall|i: int| 0 <= i < self@.simulations.len() ==> (#[trigger] self@.simulations[i]).wf()
    }

    /// A manager without simulations.
    pub fn new() -> (manager: Self)
        ensures
            manager.wf(),
            manager@.simulations.len() == 0,
            manager@.stores.len() == 0,
    {
        Manager { simulations: Vec::new(), stores: Vec::new() }
    }

    /// Adds a simulation behind the ones that the manager holds.
    pub fn add_simulation(&mut self, simulation: Environment<T>)
        requires
            old(self).wf(),
            simulation.wf(),
        ensures
            final(self).wf(),
            final(self)@.simulations == old(self)@.simulations.push(simulation@),
            final(self)@.stores == old(self)@.stores,
    {
        self.simulations.push(simulation);
        proof {
            assert(self@.simulations =~= old(self)@.simulations.push(simulation@));
        }
    }

    /// Runs the simulations in their order and collects the logs of each one
    /// that ended well. The first simulation that fails ends the run with its
    /// failure; the simulations behind it are not touched.
    pub fn run(&mut self) -> (r: Result<(), SimError>)
        requires
            old(self).wf(),
        ensures
            final(self).wf(),
            old(self)@.runs_to(final(self)@, r),
    {
        let mut i: usize = 0;
        proof {
            assert(self@.stores =~= self@.stores + Seq::new(
                0nat,
                |i: int| self@.simulations[i].yields,
            ));
        }
        while i < self.simulations.len()
            invariant
                self.wf(),
                0 <= i <= self.simulations@.len(),
                self.simulations@.len() == old(self).simulations@.len(),
                old(self)@.ran_first(self@, i as int),
                i < self.simulations@.len() ==> self@.simulations[i as int] == old(
                    self,
                )@.simulations[i as int],
            decreases self.simulations@.len() - i,
        {
            let ghost before = self@;
            assert(before.simulations[i as int].wf());
            let simulation = &mut self.simulations[i];
            let done = simulation.run();
            let logs = simulation.yield_logs();
            proof {
                assert(self@.simulations =~= before.simulations.update(
                    i as int,
                    self.simulations@[i as int]@,
                ));
                assert(self@.stores == before.stores);
                assert forall|j: int| 0 <= j < i implies old(self)@.simulations[j].runs_to(
                    #[trigger] self@.simulations[j],
                    Ok::<(), SimError>(()),
                ) by {
                    assert(self@.simulations[j] == before.simulations[j]);
                }
                assert(Seq::new(i as nat, |j: int| self@.simulations[j].yields) =~= Seq::new(
                    i as nat,
                    |j: int| before.simulations[j].yields,
                ));
            }
            match done {
                Ok(unit) => {
                    let ghost middle = self@;
                    self.stores.push(logs);
                    proof {
                        assert(self@.simulations == middle.simulations);
                        assert forall|j: int| 0 <= j < i + 1 implies old(
                            self,
                        )@.simulations[j].runs_to(
                            #[trigger] self@.simulations[j],
                            Ok::<(), SimError>(()),
                        ) by {
                            if j < i {
                                assert(old(self)@.simulations[j].runs_to(
                                    middle.simulations[j],
                                    Ok::<(), SimError>(()),
                                ));
                            } else {
                                assert(unit == ());
                                assert(done == Ok::<(), SimError>(()));
                                assert(middle.simulations[j] == self.simulations@[i as int]@);
                            }
                        }
                        let collected = logs@.map_values(|log: BTreeMap<u64, T>| log@);
                        assert(collected =~= self@.simulations[i as int].yields);
                        assert(self@.stores =~= before.stores.push(collected));
                        assert(self@.stores =~= old(self)@.stores + Seq::new(
                            (i + 1) as nat,
                            |j: int| self@.simulations[j].yields,
                        ));
                        assert(old(self)@.ran_first(self@, i + 1));
                    }
                },
                Err(e) => {
                    proof {
                        assert(old(self)@.ran_first(self@, i as int));
                    }
                    return Err(e);
                },
            }
            i = i + 1;
        }
        Ok(())
    }

    /// The simulations, in the order in which they were added.
    pub fn simulations(&self) -> (simulations: &Vec<Environment<T>>)
        ensures
            simulations@.map_values(|simulation: Environment<T>| simulation@)
                == self@.simulations,
    {
        &self.simulations
    }

    /// For each simulation that has run, the logs of its processes.
    pub fn stores(&self) -> (stores: &Vec<Vec<BTreeMap<u64, T>>>)
        ensures
            stores@.map_values(
                |logs: Vec<BTreeMap<u64, T>>| logs@.map_values(|log: BTreeMap<u64, T>| log@),
            ) == self@.stores,
    {
        &self.stores
    }
}

} // verus!
