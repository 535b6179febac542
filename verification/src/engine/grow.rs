use vstd::prelude::*;
use crate::cell::{Binding, FateCell};
use crate::error::FateError;
use crate::engine::edges::same_payload;
use crate::engine::Engine;

verus! {

impl<T, F> Engine<T, F> {
    /// One of `targets` is `x` or depends on it.
    pub open spec fn reaches_any(&self, x: usize, targets: Seq<usize>) -> bool {
        exists|k: int| 0 <= k < targets.len() && self.reaches(x, #[trigger] targets[k])
    }

    /// `self` is `before` but for cells that were dirty there, that one of
    /// `targets` is or depends on, and that are now clean with a newly cached
    /// value.
    pub open spec fn refreshed_under(&self, before: &Self, targets: Seq<usize>) -> bool {
        &&& self.refreshed(before)
        &&& forall|x: usize|
            before.contains(x) && !#[trigger] before.reaches_any(x, targets) ==> self.cell(x)
                == before.cell(x)
    }

    /// One more read refreshes under one more target.
    proof fn lemma_refreshed_one_more(&self, middle: &Self, before: &Self, targets: Seq<usize>, k: int)
        requires
            0 <= k < targets.len(),
            middle.refreshed_under(before, targets.take(k)),
            self.refreshed_from(middle, targets[k]),
        ensures
            self.refreshed_under(before, targets.take(k + 1)),
    {
        middle.lemma_same_wiring(before);
        assert forall|x: usize| before.contains(x) && #[trigger] self.dirty(x) implies self.cell(x) == before.cell(x) by {
            assert(middle.dirty(x));
        }
        assert forall|x: usize| before.contains(x) && !#[trigger] before.dirty(x) implies self.cell(x) == before.cell(x) by {
            assert(!middle.dirty(x));
        }
        assert forall|x: usize|
            before.contains(x) && !#[trigger] before.reaches_any(x, targets.take(k + 1)) implies self.cell(x)
                == before.cell(x) by {
            if middle.reaches(x, targets[k]) {
                assert(before.reaches(x, targets.take(k + 1)[k]));
            }
            if before.reaches_any(x, targets.take(k)) {
                let j = choose|j: int|
                    0 <= j < targets.take(k).len() && before.reaches(x, #[trigger] targets.take(k)[j]);
                assert(before.reaches(x, targets.take(k + 1)[j]));
            }
        }
    }

    /// What was refreshed under some of the targets was refreshed under all
    /// of them.
    proof fn lemma_refreshed_wider(&self, before: &Self, targets: Seq<usize>, k: int)
        requires
            0 <= k <= targets.len(),
            self.refreshed_under(before, targets.take(k)),
        ensures
            self.refreshed_under(before, targets),
    {
        assert forall|x: usize| before.contains(x) && !#[trigger] before.reaches_any(x, targets) implies self.cell(x)
            == before.cell(x) by {
            if before.reaches_any(x, targets.take(k)) {
                let j = choose|j: int|
                    0 <= j < targets.take(k).len() && before.reaches(x, #[trigger] targets.take(k)[j]);
                assert(before.reaches(x, targets[j]));
            }
        }
    }
}

impl<T: Clone, F: Fn(&Vec<T>) -> Option<T>> Engine<T, F> {
    /// Reads the cells of `dependencies` in order.
    pub(crate) fn gather(&mut self, dependencies: &Vec<usize>) -> (outcome: Result<Vec<T>, FateError>)
        requires
            old(self).wf(),
            forall|k: int| 0 <= k < dependencies@.len() ==> old(self).contains(#[trigger] dependencies@[k]),
        ensures
            final(self).wf(),
            final(self).refreshed_under(old(self), dependencies@),
            match outcome {
                Ok(inputs) => final(self).inputs_ready(dependencies@, inputs),
                Err(FateError::CycleDetected) => exists|k: int|
                    0 <= k < dependencies@.len() && old(self).cycle_under(#[trigger] dependencies@[k]),
                Err(FateError::ExpressionFailure) => exists|k: int|
                    0 <= k < dependencies@.len() && final(self).failure_under(#[trigger] dependencies@[k]),
            },
            outcome is Ok ==> forall|k: int|
                0 <= k < dependencies@.len() ==> !old(self).cycle_under(#[trigger] dependencies@[k]),
    {
        let ghost before = *self;
        let ghost targets = dependencies@;
        let mut inputs: Vec<T> = Vec::new();
        let mut k: usize = 0;
        while k < dependencies.len()
            invariant
                before == *old(self),
                before.wf(),
                targets == dependencies@,
                forall|j: int| 0 <= j < targets.len() ==> before.contains(#[trigger] targets[j]),
                k <= targets.len(),
                self.wf(),
                self.refreshed_under(&before, targets.take(k as int)),
                inputs@.len() == k,
                forall|j: int|
                    0 <= j < k ==> !self.dirty(#[trigger] targets[j]) && cloned(
                        self.cache(targets[j]),
                        inputs@[j],
                    ),
            decreases targets.len() - k,
        {
            let ghost previous = *self;
            let dependency = dependencies[k];
            proof {
                previous.lemma_same_wiring(&before);
            }
            match self.read(dependency) {
                Ok(value) => {
                    inputs.push(value);
                    proof {
                        self.lemma_refreshed_one_more(&previous, &before, targets, k as int);
                        assert(self.idle()) by {
                            assert forall|x: usize| self.contains(x) implies !#[trigger] self.evaluating(x) by {
                                assert(!previous.evaluating(x));
                            }
                        }
                    }
                },
                Err(error) => {
                    proof {
                        self.lemma_refreshed_one_more(&previous, &before, targets, k as int);
                        assert(self.idle()) by {
                            assert forall|x: usize| self.contains(x) implies !#[trigger] self.evaluating(x) by {
                                assert(!previous.evaluating(x));
                            }
                        }
                        self.lemma_refreshed_wider(&before, targets, k as int + 1);
                    }
                    return Err(error);
                },
            }
            k += 1;
        }
        proof {
            assert(targets.take(k as int) =~= targets);
            self.lemma_same_wiring(&before);
            assert forall|j: int| 0 <= j < targets.len() implies !before.cycle_under(#[trigger] targets[j]) by {
                let d = targets[j];
                if before.cycle_under(d) {
                    let x = choose|x: usize| #[trigger] before.reaches(x, d) && before.on_cycle(x);
                    self.lemma_clean_over_clean(d, x);
                    assert(self.on_cycle(x));
                }
            }
        }
        Ok(inputs)
    }

    /// `self` is `before` with one more cell, `id`, a clean leaf bound to
    /// `value`, without edges.
    pub open spec fn leaf_added(&self, before: &Self, id: usize, value: T) -> bool {
        &&& id == before@.len()
        &&& self@.len() == before@.len() + 1
        &&& forall|x: usize| before.contains(x) ==> #[trigger] self.cell(x) == before.cell(x)
        &&& self.cell(id).id == id
        &&& self.binding(id) == Binding::<T, F>::Value(value)
        &&& cloned(value, self.cache(id))
        &&& !self.dirty(id)
        &&& !self.evaluating(id)
        &&& self.dependencies(id).len() == 0
        &&& self.dependents(id).len() == 0
    }

    /// `self` is `before`, refreshed under `dependencies`, with one more
    /// cell, `id`: it is clean, bound to `expression` over `dependencies`,
    /// which are clean and list it as a dependent, and has no dependents.
    pub open spec fn derived_added(
        &self,
        before: &Self,
        id: usize,
        expression: F,
        dependencies: Seq<usize>,
    ) -> bool {
        &&& id == before@.len()
        &&& self@.len() == before@.len() + 1
        &&& self.cell(id).id == id
        &&& self.binding(id) == Binding::<T, F>::Expression(expression)
        &&& !self.dirty(id)
        &&& !self.evaluating(id)
        &&& self.dependencies(id) == dependencies
        &&& self.dependents(id).len() == 0
        &&& forall|k: int| 0 <= k < dependencies.len() ==> !self.dirty(#[trigger] dependencies[k])
        &&& forall|x: usize|
            before.contains(x) ==> {
                &&& (#[trigger] self.cell(x)).id == before.cell(x).id
                &&& self.cell(x).binding == before.cell(x).binding
                &&& self.cell(x).evaluating == before.cell(x).evaluating
                &&& self.cell(x).dependencies@ == before.cell(x).dependencies@
                &&& self.cell(x).dirty ==> before.cell(x).dirty
                &&& self.cell(x).dirty || !before.cell(x).dirty || !before.reaches_any(x, dependencies)
                    ==> self.cell(x).dirty == before.cell(x).dirty && self.cell(x).cached_value
                    == before.cell(x).cached_value
            }
        &&& forall|x: usize, y: usize|
            before.contains(x) && y != id ==> (#[trigger] self.notifies(x, y) <==> before.notifies(
                x,
                y,
            ))
        &&& forall|x: usize|
            before.contains(x) ==> (#[trigger] self.notifies(x, id) <==> dependencies.contains(x))
    }

    /// A well-formed graph that gets one more cell, a clean and coherent one
    /// without edges, stays well-formed but for what is asked of the
    /// expression of the new cell.
    proof fn lemma_grown(&self, before: &Self, id: usize)
        requires
            before.wf(),
            id == before@.len(),
            self@.len() == before@.len() + 1,
            forall|x: usize| before.contains(x) ==> #[trigger] self.cell(x) == before.cell(x),
            self.cell(id).id == id,
            !self.dirty(id),
            !self.evaluating(id),
            self.dependencies(id).len() == 0,
            self.dependents(id).len() == 0,
        ensures
            self.linked(),
            self.leaves_bare(),
            self.idle(),
            self.evaluating_dirty(),
            self.propagated(),
            forall|x: usize, y: usize| #[trigger] self.leads_to(x, y) == before.leads_to(x, y),
            forall|x: usize| #[trigger] self.on_cycle(x) == before.on_cycle(x),
            forall|x: usize, y: usize| before.contains(x) ==> #[trigger] self.reaches(x, y) == before.reaches(x, y),
            !self.on_cycle(id),
            self.cycles_dirty(),
            forall|x: usize| before.contains(x) && !self.dirty(x) ==> #[trigger] self.coherent(x),
            forall|x: usize| before.contains(x) ==> #[trigger] self.callable(x),
    {
        assert forall|x: usize| before.contains(x) implies #[trigger] self.dependents(x) == before.dependents(x)
            && self.dependencies(x) == before.dependencies(x) by {}
        assert forall|x: usize, y: usize| self.contains(x) implies (#[trigger] self.reads(x, y) <==> before.contains(x) && before.reads(x, y)) by {}
        assert forall|x: usize, y: usize| self.contains(x) implies (#[trigger] self.notifies(x, y) <==> before.contains(x) && before.notifies(x, y)) by {}
        self.lemma_grown_chains(before, id);
        assert(self.leaves_bare()) by {
            assert forall|x: usize| self.contains(x) && #[trigger] self.binding(x) is Value implies self.dependencies(x).len() == 0 by {
                if x != id {
                    assert(before.binding(x) is Value);
                }
            }
        }
        assert(self.idle()) by {
            assert forall|x: usize| self.contains(x) implies !#[trigger] self.evaluating(x) by {
                if x != id {
                    assert(!before.evaluating(x));
                }
            }
        }
        assert forall|x: usize| before.contains(x) && !self.dirty(x) implies #[trigger] self.coherent(x) by {
            assert forall|k: int| 0 <= k < before.dependencies(x).len() implies self.cache(
                #[trigger] before.dependencies(x)[k],
            ) == before.cache(before.dependencies(x)[k]) && !self.dirty(before.dependencies(x)[k]) by {
                let d = before.dependencies(x)[k];
                before.lemma_clean_reads_clean(x, d);
            }
            self.lemma_coherent_kept(before, x);
        }
        assert forall|x: usize| before.contains(x) implies #[trigger] self.callable(x) by {
            assert(before.callable(x));
        }
    }

    /// Adds a leaf bound to `value`, with a clone of `value` cached.
    pub(crate) fn add_leaf(&mut self, value: T) -> (id: usize)
        requires
            old(self).wf(),
        ensures
            final(self).wf(),
            final(self).leaf_added(old(self), id, value),
    {
        let ghost before = *self;
        let id = self.cells.len();
        let cached_value = value.clone();
        self.cells.push(
            FateCell {
                id,
                binding: Binding::Value(value),
                cached_value,
                dirty: false,
                evaluating: false,
                dependencies: Vec::new(),
                dependents: Vec::new(),
            },
        );
        proof {
            self.lemma_grown(&before, id);
        }
        id
    }

    /// Wiring a new derived cell, clean and without edges, to clean
    /// dependencies on whose cached values its own is a value of its
    /// expression leaves a well-formed graph.
    proof fn lemma_wired(
        &self,
        grown: &Self,
        before: &Self,
        id: usize,
        dependencies: Seq<usize>,
        inputs: Vec<T>,
    )
        requires
            before.wf(),
            id == before@.len(),
            grown@.len() == before@.len() + 1,
            forall|x: usize| before.contains(x) ==> #[trigger] grown.cell(x) == before.cell(x),
            grown.cell(id).id == id,
            !grown.dirty(id),
            !grown.evaluating(id),
            grown.dependencies(id).len() == 0,
            grown.dependents(id).len() == 0,
            self.rewired(grown, id, dependencies),
            self.linked(),
            before.inputs_ready(dependencies, inputs),
            forall|k: int| 0 <= k < dependencies.len() ==> before.contains(#[trigger] dependencies[k]),
            grown.binding(id) matches Binding::Expression(expression) && expression.ensures(
                (&inputs,),
                Some(grown.cache(id)),
            ) && forall|any: Vec<T>|
                any@.len() == dependencies.len() ==> #[trigger] expression.requires((&any,)),
        ensures
            self.wf(),
    {
        grown.lemma_grown(before, id);
        assert(self.leaves_bare()) by {
            assert forall|x: usize| self.contains(x) && #[trigger] self.binding(x) is Value implies self.dependencies(x).len() == 0 by {
                assert(grown.binding(x) is Value);
            }
        }
        assert(self.idle() && self.evaluating_dirty()) by {
            assert forall|x: usize| self.contains(x) implies !#[trigger] self.evaluating(x) by {
                assert(!grown.evaluating(x));
            }
        }
        assert(self.cycles_dirty()) by {
            assert forall|x: usize| self.contains(x) && #[trigger] self.on_cycle(x) implies self.dirty(x) by {
                self.lemma_cycle_old_or_through(grown, id, x);
            }
        }
        assert(self.clean_coherent()) by {
            assert forall|x: usize| self.contains(x) && !#[trigger] self.dirty(x) implies self.coherent(x) by {
                if x != id {
                    assert forall|k: int| 0 <= k < grown.dependencies(x).len() implies self.cache(
                        #[trigger] grown.dependencies(x)[k],
                    ) == grown.cache(grown.dependencies(x)[k]) && !self.dirty(
                        grown.dependencies(x)[k],
                    ) by {
                        let d = grown.dependencies(x)[k];
                        before.lemma_clean_reads_clean(x, d);
                    }
                    self.lemma_coherent_kept(grown, x);
                }
            }
        }
        assert(self.all_callable()) by {
            assert forall|x: usize| self.contains(x) implies #[trigger] self.callable(x) by {
                if x != id {
                    assert(grown.callable(x));
                }
            }
        }
    }

    /// Reads `dependencies` in order and evaluates `expression` on what they
    /// gave; then adds a clean cell bound to `expression` that has the value
    /// cached, and enters it among the dependents of each of `dependencies`.
    /// Adds nothing if a read came to nothing or the expression had no value.
    pub(crate) fn add_derived(&mut self, expression: F, dependencies: Vec<usize>) -> (outcome: Result<
        usize,
        FateError,
    >)
        requires
            old(self).wf(),
            forall|k: int| 0 <= k < dependencies@.len() ==> old(self).contains(#[trigger] dependencies@[k]),
            forall|inputs: Vec<T>|
                inputs@.len() == dependencies@.len() ==> #[trigger] expression.requires((&inputs,)),
        ensures
            final(self).wf(),
            match outcome {
                Ok(id) => final(self).derived_added(old(self), id, expression, dependencies@),
                Err(FateError::CycleDetected) => {
                    &&& final(self).refreshed_under(old(self), dependencies@)
                    &&& exists|k: int|
                        0 <= k < dependencies@.len() && old(self).cycle_under(#[trigger] dependencies@[k])
                },
                Err(FateError::ExpressionFailure) => {
                    &&& final(self).refreshed_under(old(self), dependencies@)
                    &&& final(self).fails_on(expression, dependencies@) || exists|k: int|
                        0 <= k < dependencies@.len() && final(self).failure_under(#[trigger] dependencies@[k])
                },
            },
            outcome is Ok ==> forall|k: int|
                0 <= k < dependencies@.len() ==> !old(self).cycle_under(#[trigger] dependencies@[k]),
    {
        let ghost before = *self;
        let ghost wanted = dependencies@;
        let inputs = match self.gather(&dependencies) {
            Ok(inputs) => inputs,
            Err(error) => {
                return Err(error);
            },
        };
        let ghost read = *self;
        let value = match expression(&inputs) {
            Some(value) => value,
            None => {
                return Err(FateError::ExpressionFailure);
            },
        };
        let id = self.cells.len();
        self.cells.push(
            FateCell {
                id,
                binding: Binding::Expression(expression),
                cached_value: value,
                dirty: false,
                evaluating: false,
                dependencies: Vec::new(),
                dependents: Vec::new(),
            },
        );
        let ghost grown = *self;
        proof {
            grown.lemma_grown(&read, id);
        }
        self.set_dependencies(id, dependencies);
        proof {
            self.lemma_wired(&grown, &read, id, wanted, inputs);
            assert forall|x: usize| before.contains(x) implies {
                &&& (#[trigger] self.cell(x)).id == before.cell(x).id
                &&& self.cell(x).binding == before.cell(x).binding
                &&& self.cell(x).evaluating == before.cell(x).evaluating
                &&& self.cell(x).dependencies@ == before.cell(x).dependencies@
                &&& self.cell(x).dirty == read.cell(x).dirty
                &&& self.cell(x).cached_value == read.cell(x).cached_value
            } by {
                assert(self.dependencies(x) == grown.dependencies(x));
            }
            assert forall|x: usize| before.contains(x) implies {
                &&& (#[trigger] self.cell(x)).dirty ==> before.cell(x).dirty
                &&& self.cell(x).dirty || !before.cell(x).dirty || !before.reaches_any(x, wanted)
                    ==> self.cell(x).dirty == before.cell(x).dirty && self.cell(x).cached_value
                    == before.cell(x).cached_value
            } by {
                assert(read.dirty(x) || !before.dirty(x) ==> read.cell(x) == before.cell(x));
            }
            assert(self.dependents(id).len() == 0) by {
                if self.dependents(id).len() > 0 {
                    let y = self.dependents(id)[0];
                    assert(self.notifies(id, y));
                }
            }
        }
        Ok(id)
    }
}

} // verus!
