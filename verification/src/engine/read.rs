use vstd::prelude::*;
use crate::cell::{Binding, FateTrait};
use crate::error::FateError;
use crate::engine::dirty::{lemma_fewer_unset, unset_below};
use crate::engine::Engine;

verus! {

impl<T, F> Engine<T, F> {
    pub open spec fn evaluating_marks(&self) -> spec_fn(usize) -> bool {
        |x: usize| self.evaluating(x)
    }

    /// The number of cells of which no read is in progress.
    pub open spec fn idle_count(&self) -> nat {
        unset_below(self.evaluating_marks(), self@.len())
    }

    /// Every cell of which a read is in progress depends on `id` through one
    /// or more edges: it waits for the value of `id`.
    pub open spec fn awaited(&self, id: usize) -> bool {
        forall|x: usize| self.contains(x) && #[trigger] self.evaluating(x) ==> self.leads_to(id, x)
    }

    /// `id`, or a cell that it depends on, depends on itself.
    pub open spec fn cycle_under(&self, id: usize) -> bool {
        exists|x: usize| #[trigger] self.reaches(x, id) && self.on_cycle(x)
    }

    /// `self` is `before` but for cells that were dirty there and are now
    /// clean with a newly cached value.
    pub open spec fn refreshed(&self, before: &Self) -> bool {
        &&& self@.len() == before@.len()
        &&& forall|x: usize|
            before.contains(x) ==> {
                &&& (#[trigger] self.cell(x)).id == before.cell(x).id
                &&& self.cell(x).binding == before.cell(x).binding
                &&& self.cell(x).evaluating == before.cell(x).evaluating
                &&& self.cell(x).dependencies == before.cell(x).dependencies
                &&& self.cell(x).dependents == before.cell(x).dependents
            }
        &&& forall|x: usize| before.contains(x) && #[trigger] self.dirty(x) ==> self.cell(x) == before.cell(x)
        &&& forall|x: usize| before.contains(x) && !#[trigger] before.dirty(x) ==> self.cell(x) == before.cell(x)
    }

    /// `self` is `before` but for cells that were dirty there, that `id` is
    /// or depends on, and that are now clean with a newly cached value.
    pub open spec fn refreshed_from(&self, before: &Self, id: usize) -> bool {
        &&& self.refreshed(before)
        &&& forall|x: usize|
            before.contains(x) && !#[trigger] before.reaches(x, id) ==> self.cell(x) == before.cell(x)
    }

    /// A read within a read refreshes no more than the outer read may.
    pub proof fn lemma_refreshed_further(&self, middle: &Self, before: &Self, inner: usize, outer: usize)
        requires
            middle.refreshed_from(before, outer),
            self.refreshed_from(middle, inner),
            before.reaches(inner, outer),
        ensures
            self.refreshed_from(before, outer),
    {
        middle.lemma_same_wiring(before);
        assert forall|x: usize| before.contains(x) && #[trigger] self.dirty(x) implies self.cell(x) == before.cell(x) by {
            assert(middle.dirty(x));
        }
        assert forall|x: usize| before.contains(x) && !#[trigger] before.dirty(x) implies self.cell(x) == before.cell(x) by {
            assert(!middle.dirty(x));
        }
        assert forall|x: usize| before.contains(x) && !#[trigger] before.reaches(x, outer) implies self.cell(x) == before.cell(x) by {
            if middle.reaches(x, inner) {
                before.lemma_reaches_reaches(x, inner, outer);
            }
        }
    }

    /// Once the mark of the read in progress is taken off `id` again, the
    /// graph is the one in which the read began, refreshed.
    proof fn lemma_unflagged_refreshes(&self, flagged: &Self, started: &Self, before: &Self, id: usize)
        requires
            before.contains(id),
            !before.evaluating(id),
            started@.len() == before@.len(),
            forall|x: usize| before.contains(x) && x != id ==> #[trigger] started.cell(x) == before.cell(x),
            started.cell(id) == before.cell(id).with_evaluating(true),
            flagged.refreshed_from(started, id),
            flagged.dirty(id),
            self@.len() == before@.len(),
            forall|x: usize| before.contains(x) && x != id ==> #[trigger] self.cell(x) == flagged.cell(x),
            self.cell(id) == flagged.cell(id).with_evaluating(false),
        ensures
            self.refreshed_from(before, id),
    {
        started.lemma_same_wiring(before);
        assert forall|x: usize| before.contains(x) implies {
            &&& (#[trigger] self.cell(x)).id == before.cell(x).id
            &&& self.cell(x).binding == before.cell(x).binding
            &&& self.cell(x).evaluating == before.cell(x).evaluating
            &&& self.cell(x).dependencies == before.cell(x).dependencies
            &&& self.cell(x).dependents == before.cell(x).dependents
        } by {}
        assert forall|x: usize| before.contains(x) && #[trigger] self.dirty(x) implies self.cell(x) == before.cell(x) by {
            if x != id {
                assert(flagged.dirty(x));
            }
        }
        assert forall|x: usize| before.contains(x) && !#[trigger] before.dirty(x) implies self.cell(x) == before.cell(x) by {
            if x != id {
                assert(!started.dirty(x));
            }
        }
        assert forall|x: usize| before.contains(x) && !#[trigger] before.reaches(x, id) implies self.cell(x) == before.cell(x) by {
            if x != id {
                assert(!started.reaches(x, id));
            }
        }
    }
}

impl<T: Clone, F: Fn(&Vec<T>) -> Option<T>> Engine<T, F> {
    /// `id`, or a cell that it depends on, is dirty though its dependencies
    /// are clean, and has an expression that may turn out to have no value on
    /// what they have cached.
    pub open spec fn failure_under(&self, id: usize) -> bool {
        exists|x: usize| #[trigger] self.reaches(x, id) && self.dirty(x) && self.stuck(x)
    }

    /// What a read of `id` that began in `before` and gave `outcome` has
    /// left: the cell is clean and coherent and `outcome` a clone of what it
    /// has cached, or it is as dirty as it was and the error says what stood
    /// in the way.
    pub open spec fn read_from(&self, before: &Self, id: usize, outcome: Result<T, FateError>) -> bool {
        &&& self.refreshed_from(before, id)
        &&& match outcome {
            Ok(value) => !self.dirty(id) && self.coherent(id) && cloned(self.cache(id), value),
            Err(FateError::CycleDetected) => self.dirty(id) && before.cycle_under(id),
            Err(FateError::ExpressionFailure) => self.dirty(id) && self.failure_under(id),
        }
        &&& !before.dirty(id) ==> outcome is Ok && self@ == before@
        &&& before.binding(id) is Value && !before.evaluating(id) ==> outcome is Ok
    }

    /// Setting or clearing the mark of a read in progress, of a dirty cell,
    /// keeps what holds of a graph at every moment.
    proof fn lemma_flag_keeps_inv(&self, before: &Self, id: usize)
        requires
            before.inv(),
            before.contains(id),
            before.dirty(id),
            self@.len() == before@.len(),
            forall|x: usize| before.contains(x) && x != id ==> #[trigger] self.cell(x) == before.cell(x),
            self.cell(id) == before.cell(id).with_evaluating(self.evaluating(id)),
        ensures
            self.inv(),
            self.same_wiring(before),
    {
        self.lemma_same_wiring(before);
        self.lemma_same_expressions(before);
        assert(self.evaluating_dirty()) by {
            assert forall|x: usize| self.contains(x) && #[trigger] self.evaluating(x) implies self.dirty(x) by {
                if x != id {
                    assert(before.evaluating(x));
                }
            }
        }
        assert(self.clean_coherent()) by {
            assert forall|x: usize| self.contains(x) && !#[trigger] self.dirty(x) implies self.coherent(x) by {
                assert forall|k: int| 0 <= k < before.dependencies(x).len() implies self.cache(
                    #[trigger] before.dependencies(x)[k],
                ) == before.cache(before.dependencies(x)[k]) && !self.dirty(
                    before.dependencies(x)[k],
                ) by {
                    let d = before.dependencies(x)[k];
                    before.lemma_clean_reads_clean(x, d);
                }
                self.lemma_coherent_kept(before, x);
            }
        }
    }

    /// Caching a value for a dirty cell all of whose inputs are clean, such
    /// that the cell is coherent, and marking it clean, keeps what holds of
    /// a graph at every moment.
    proof fn lemma_commit_keeps_inv(&self, before: &Self, id: usize)
        requires
            before.inv(),
            before.contains(id),
            before.dirty(id),
            !before.evaluating(id),
            self@.len() == before@.len(),
            forall|x: usize| before.contains(x) && x != id ==> #[trigger] self.cell(x) == before.cell(x),
            self.cell(id).id == before.cell(id).id,
            self.cell(id).binding == before.cell(id).binding,
            self.cell(id).evaluating == before.cell(id).evaluating,
            self.cell(id).dependencies == before.cell(id).dependencies,
            self.cell(id).dependents == before.cell(id).dependents,
            !self.dirty(id),
            forall|input: usize| #[trigger] before.reads(id, input) ==> !before.dirty(input),
            self.coherent(id),
        ensures
            self.inv(),
            self.same_wiring(before),
    {
        self.lemma_same_wiring(before);
        self.lemma_same_expressions(before);
        assert forall|x: usize| before.contains(x) && x != id implies #[trigger] self.dirty(x) == before.dirty(x)
            && self.cache(x) == before.cache(x) && self.evaluating(x) == before.evaluating(x) by {}
        assert(self.cycles_dirty()) by {
            assert forall|x: usize| self.contains(x) && #[trigger] self.on_cycle(x) implies self.dirty(x) by {
                if x == id {
                    before.lemma_off_cycle(id);
                }
            }
        }
        assert(self.clean_coherent()) by {
            assert forall|x: usize| self.contains(x) && !#[trigger] self.dirty(x) implies self.coherent(x) by {
                if x != id {
                    assert forall|k: int| 0 <= k < before.dependencies(x).len() implies self.cache(
                        #[trigger] before.dependencies(x)[k],
                    ) == before.cache(before.dependencies(x)[k]) && !self.dirty(
                        before.dependencies(x)[k],
                    ) by {
                        let d = before.dependencies(x)[k];
                        before.lemma_clean_reads_clean(x, d);
                    }
                }
            }
        }
    }

    /// Reads the cell `id`: hands out a clone of what it has cached if it is
    /// clean; else reads its dependencies in order, evaluates its binding on
    /// what they gave, caches the value and marks the cell clean. A cell that
    /// is asked for its value while it is itself being read stops the read.
    pub(crate) fn read(&mut self, id: usize) -> (outcome: Result<T, FateError>)
        requires
            old(self).inv(),
            old(self).contains(id),
            old(self).awaited(id),
        ensures
            final(self).inv(),
            final(self).read_from(old(self), id, outcome),
        decreases old(self).idle_count(),
    {
        let ghost before = *self;
        if self.cells[id].evaluating {
            assert(before.evaluating(id));
            assert(before.reaches(id, id) && before.on_cycle(id));
            return Err(FateError::CycleDetected);
        }
        if !self.cells[id].is_dirty() {
            assert(!before.dirty(id));
            return Ok(self.cells[id].cached_value.clone());
        }
        let literal = match &self.cells[id].binding {
            Binding::Value(literal) => Some(literal.clone()),
            Binding::Expression(_) => None,
        };
        if let Some(value) = literal {
            self.cells[id].cached_value = value;
            self.cells[id].dirty = false;
            proof {
                self.lemma_commit_keeps_inv(&before, id);
            }
            return Ok(self.cells[id].cached_value.clone());
        }
        self.cells[id].evaluating = true;
        let ghost started = *self;
        proof {
            self.lemma_flag_keeps_inv(&before, id);
        }
        let size = self.cells.len();
        let count = self.cells[id].dependencies.len();
        let mut inputs: Vec<T> = Vec::new();
        let mut k: usize = 0;
        while k < count
            invariant
                before == *old(self),
                before.inv(),
                before.contains(id),
                before.awaited(id),
                before.dirty(id),
                !before.evaluating(id),
                before.binding(id) is Expression,
                started.same_wiring(&before),
                started@.len() == before@.len(),
                forall|x: usize| before.contains(x) && x != id ==> #[trigger] started.cell(x) == before.cell(x),
                started.cell(id) == before.cell(id).with_evaluating(true),
                size == before@.len(),
                self.inv(),
                self.refreshed_from(&started, id),
                self.dirty(id),
                self.evaluating(id),
                count == before.dependencies(id).len(),
                k <= count,
                inputs@.len() == k,
                forall|j: int|
                    0 <= j < k ==> !self.dirty(#[trigger] before.dependencies(id)[j]) && cloned(
                        self.cache(before.dependencies(id)[j]),
                        inputs@[j],
                    ),
            decreases count - k,
        {
            let ghost previous = *self;
            proof {
                started.lemma_same_wiring(&before);
                previous.lemma_same_wiring(&started);
            }
            let dependency = self.cells[id].dependencies[k];
            proof {
                assert(before.reads(id, dependency));
                before.lemma_edge_leads(dependency, id);
                assert forall|x: usize| previous.contains(x) && #[trigger] previous.evaluating(x) implies previous.leads_to(dependency, x) by {
                    if x != id {
                        assert(before.evaluating(x));
                        before.lemma_leads_leads(dependency, id, x);
                    }
                }
                lemma_fewer_unset(before.evaluating_marks(), previous.evaluating_marks(), before@.len(), id);
            }
            match self.read(dependency) {
                Ok(value) => {
                    inputs.push(value);
                    proof {
                        assert(self.evaluating(id));
                        self.lemma_refreshed_further(&previous, &started, dependency, id);
                        assert forall|j: int| 0 <= j < k + 1 implies !self.dirty(
                            #[trigger] before.dependencies(id)[j],
                        ) && cloned(self.cache(before.dependencies(id)[j]), inputs@[j]) by {
                            let d = before.dependencies(id)[j];
                            assert(before.reads(id, d));
                        }
                    }
                },
                Err(error) => {
                    let ghost failed = *self;
                    self.cells[id].evaluating = false;
                    proof {
                        failed.lemma_refreshed_further(&previous, &started, dependency, id);
                        self.lemma_flag_keeps_inv(&failed, id);
                        self.lemma_unflagged_refreshes(&failed, &started, &before, id);
                        match error {
                            FateError::CycleDetected => {
                                let x = choose|x: usize| #[trigger] previous.reaches(x, dependency) && previous.on_cycle(x);
                                before.lemma_reaches_reaches(x, dependency, id);
                            },
                            FateError::ExpressionFailure => {
                                let x = choose|x: usize|
                                    #[trigger] failed.reaches(x, dependency) && failed.dirty(x)
                                        && failed.stuck(x);
                                failed.lemma_same_wiring(&previous);
                                before.lemma_reaches_reaches(x, dependency, id);
                                self.lemma_same_wiring(&failed);
                                assert(self.reaches(x, id));
                                assert forall|k: int| 0 <= k < failed.dependencies(x).len() implies self.cache(
                                    #[trigger] failed.dependencies(x)[k],
                                ) == failed.cache(failed.dependencies(x)[k]) && self.dirty(
                                    failed.dependencies(x)[k],
                                ) == failed.dirty(failed.dependencies(x)[k]) by {
                                    let d = failed.dependencies(x)[k];
                                    assert(failed.reads(x, d));
                                }
                            },
                        }
                    }
                    return Err(error);
                },
            }
            k += 1;
        }
        let ghost gathered = *self;
        self.cells[id].evaluating = false;
        let ghost ready = *self;
        proof {
            self.lemma_flag_keeps_inv(&gathered, id);
            self.lemma_unflagged_refreshes(&gathered, &started, &before, id);
            assert(ready.callable(id));
        }
        let evaluated = match &self.cells[id].binding {
            Binding::Expression(expression) => expression(&inputs),
            Binding::Value(_) => None,
        };
        match evaluated {
            Some(value) => {
                self.cells[id].cached_value = value;
                self.cells[id].dirty = false;
                proof {
                    assert(self.inputs_ready(self.dependencies(id), inputs)) by {
                        assert forall|j: int| 0 <= j < self.dependencies(id).len() implies !self.dirty(
                            #[trigger] self.dependencies(id)[j],
                        ) && cloned(self.cache(self.dependencies(id)[j]), inputs@[j]) by {
                            let d = before.dependencies(id)[j];
                            assert(ready.reads(id, d));
                        }
                    }
                    match self.binding(id) {
                        Binding::Expression(expression) => {
                            assert(expression.ensures((&inputs,), Some(self.cache(id))));
                        },
                        Binding::Value(_) => {},
                    }
                    self.lemma_commit_keeps_inv(&ready, id);
                    self.lemma_refreshed_further(&ready, &before, id, id);
                }
                Ok(self.cells[id].cached_value.clone())
            },
            None => {
                proof {
                    assert(self.reaches(id, id));
                    assert(self.inputs_ready(self.dependencies(id), inputs)) by {
                        assert forall|j: int| 0 <= j < self.dependencies(id).len() implies !self.dirty(
                            #[trigger] self.dependencies(id)[j],
                        ) && cloned(self.cache(self.dependencies(id)[j]), inputs@[j]) by {
                            let d = before.dependencies(id)[j];
                            assert(gathered.reads(id, d));
                        }
                    }
                }
                Err(FateError::ExpressionFailure)
            },
        }
    }
}

} // verus!
