use vstd::prelude::*;
use crate::cell::Binding;
use crate::engine::edges::same_payload;
use crate::engine::Engine;

verus! {

impl<T, F> Engine<T, F> {
    /// `self` is `before` after the cell `id` was bound anew: it has the
    /// given binding and dependencies, exactly they list it as a dependent,
    /// and with it everything that it reaches is dirty. No other binding, no
    /// other edge and no cached value has changed.
    pub open spec fn rebound_from(
        &self,
        before: &Self,
        id: usize,
        binding: Binding<T, F>,
        dependencies: Seq<usize>,
    ) -> bool {
        &&& self@.len() == before@.len()
        &&& forall|x: usize|
            before.contains(x) ==> {
                &&& (#[trigger] self.cell(x)).id == before.cell(x).id
                &&& self.cell(x).cached_value == before.cell(x).cached_value
                &&& self.cell(x).evaluating == before.cell(x).evaluating
                &&& (self.cell(x).dirty <==> before.cell(x).dirty || self.reaches(id, x))
            }
        &&& forall|x: usize| before.contains(x) && x != id ==> #[trigger] self.binding(x) == before.binding(x)
        &&& forall|x: usize|
            before.contains(x) && x != id ==> #[trigger] self.dependencies(x) == before.dependencies(x)
        &&& self.binding(id) == binding
        &&& self.dependencies(id) == dependencies
        &&& forall|x: usize, y: usize|
            before.contains(x) && y != id ==> (#[trigger] self.notifies(x, y) <==> before.notifies(
                x,
                y,
            ))
        &&& forall|x: usize|
            before.contains(x) ==> (#[trigger] self.notifies(x, id) <==> dependencies.contains(x))
    }
}

impl<T: Clone, F: Fn(&Vec<T>) -> Option<T>> Engine<T, F> {
    /// Rewiring a cell, binding it anew and cascading from it leaves a
    /// well-formed graph.
    proof fn lemma_rebound(
        &self,
        bound: &Self,
        wired: &Self,
        before: &Self,
        id: usize,
        dependencies: Seq<usize>,
    )
        requires
            before.wf(),
            before.contains(id),
            forall|k: int| 0 <= k < dependencies.len() ==> before.contains(#[trigger] dependencies[k]),
            wired.rewired(before, id, dependencies),
            wired.linked(),
            bound@.len() == wired@.len(),
            forall|x: usize| before.contains(x) && x != id ==> #[trigger] bound.cell(x) == wired.cell(x),
            bound.cell(id).id == wired.cell(id).id,
            bound.cell(id).cached_value == wired.cell(id).cached_value,
            bound.cell(id).dirty == wired.cell(id).dirty,
            bound.cell(id).evaluating == wired.cell(id).evaluating,
            bound.cell(id).dependencies == wired.cell(id).dependencies,
            bound.cell(id).dependents == wired.cell(id).dependents,
            bound.binding(id) is Value ==> dependencies.len() == 0,
            bound.callable(id),
            self.cascaded_from(bound, id),
        ensures
            self.wf(),
            self.rebound_from(before, id, bound.binding(id), dependencies),
    {
        bound.lemma_same_edges(wired);
        self.lemma_same_edges(bound);
        // What the cells hold, step by step.
        assert forall|x: usize| before.contains(x) implies {
            &&& (#[trigger] self.cell(x)).id == before.cell(x).id
            &&& self.cell(x).cached_value == before.cell(x).cached_value
            &&& self.cell(x).evaluating == before.cell(x).evaluating
            &&& bound.cell(x).dirty == before.cell(x).dirty
            &&& self.cell(x).binding == bound.cell(x).binding
            &&& (x != id ==> self.binding(x) == before.binding(x))
            &&& (x != id ==> self.dependencies(x) == before.dependencies(x))
        } by {}
        // The cascade has marked what `id` reaches.
        self.lemma_cascade_complete(bound, id);
        // What holds of a graph between operations.
        assert(self.idle() && self.evaluating_dirty()) by {
            assert forall|x: usize| self.contains(x) implies !#[trigger] self.evaluating(x) by {
                assert(!before.evaluating(x));
            }
        }
        assert(self.cycles_dirty()) by {
            assert forall|x: usize| self.contains(x) && #[trigger] self.on_cycle(x) implies self.dirty(x) by {
                self.lemma_cycle_old_or_through(before, id, x);
            }
        }
        assert(self.clean_coherent()) by {
            assert forall|x: usize| self.contains(x) && !#[trigger] self.dirty(x) implies self.coherent(x) by {
                assert(!before.dirty(x));
                assert forall|k: int| 0 <= k < before.dependencies(x).len() implies self.cache(
                    #[trigger] before.dependencies(x)[k],
                ) == before.cache(before.dependencies(x)[k]) && !self.dirty(before.dependencies(x)[k]) by {
                    let d = before.dependencies(x)[k];
                    assert(before.reads(x, d));
                    assert(self.notifies(d, x));
                }
                self.lemma_coherent_kept(before, x);
            }
        }
        assert(self.all_callable()) by {
            assert forall|x: usize| self.contains(x) implies #[trigger] self.callable(x) by {
                if x != id {
                    assert(before.callable(x));
                }
            }
        }
    }

    /// Gives the cell `id` another binding and other dependencies: takes it
    /// out of the dependents of the old ones, enters it among those of the
    /// new ones, installs the binding, and marks the cell and whatever it
    /// reaches dirty.
    pub(crate) fn rebind(&mut self, id: usize, binding: Binding<T, F>, dependencies: Vec<usize>)
        requires
            old(self).wf(),
            old(self).contains(id),
            forall|k: int| 0 <= k < dependencies@.len() ==> old(self).contains(#[trigger] dependencies@[k]),
            binding is Value ==> dependencies@.len() == 0,
            binding matches Binding::Expression(expression) ==> forall|inputs: Vec<T>|
                inputs@.len() == dependencies@.len() ==> #[trigger] expression.requires((&inputs,)),
        ensures
            final(self).wf(),
            final(self).rebound_from(old(self), id, binding, dependencies@),
    {
        let ghost before = *self;
        let ghost wanted = dependencies@;
        self.set_dependencies(id, dependencies);
        let ghost wired = *self;
        self.cells[id].binding = binding;
        let ghost bound = *self;
        proof {
            bound.lemma_same_edges(&wired);
        }
        self.cascade(id);
        proof {
            self.lemma_rebound(&bound, &wired, &before, id, wanted);
        }
    }

    /// Hands the literal of the cell `id` to `observer`; does nothing if the
    /// cell is bound to an expression.
    pub(crate) fn observe<O: FnOnce(&T)>(&self, id: usize, observer: O)
        requires
            self.contains(id),
            self.binding(id) matches Binding::Value(literal) ==> observer.requires((&literal,)),
        ensures
            self.binding(id) matches Binding::Value(literal) ==> observer.ensures((&literal,), ()),
    {
        match &self.cells[id].binding {
            Binding::Value(literal) => observer(literal),
            Binding::Expression(_) => {},
        }
    }

    /// Lets `mutator` change the literal of the cell `id` in place, and then
    /// marks the cell and whatever it reaches dirty; does nothing if the cell
    /// is bound to an expression.
    pub(crate) fn mutate<M: FnOnce(&mut T)>(&mut self, id: usize, mutator: M)
        requires
            old(self).wf(),
            old(self).contains(id),
            old(self).binding(id) matches Binding::Value(literal) ==> forall|payload: &mut T|
                *payload == literal ==> #[trigger] mutator.requires((payload,)),
        ensures
            final(self).wf(),
            match old(self).binding(id) {
                Binding::Value(literal) => exists|payload: &mut T|
                    *payload == literal && #[trigger] mutator.ensures((payload,), ())
                        && final(self).rebound_from(
                        old(self),
                        id,
                        Binding::Value(*final(payload)),
                        Seq::empty(),
                    ),
                Binding::Expression(_) => final(self)@ == old(self)@,
            },
    {
        let ghost before = *self;
        let literal = match &self.cells[id].binding {
            Binding::Value(_) => true,
            Binding::Expression(_) => false,
        };
        if literal {
            match &mut self.cells[id].binding {
                Binding::Value(literal) => mutator(literal),
                Binding::Expression(_) => {},
            }
            let ghost bound = *self;
            proof {
                bound.lemma_same_edges(&before);
            }
            self.cascade(id);
            proof {
                assert(before.dependencies(id) =~= Seq::<usize>::empty());
                self.lemma_rebound(&bound, &before, &before, id, Seq::empty());
            }
        }
    }

    /// Marks the cell `id`, and whatever it reaches, dirty.
    pub(crate) fn mark_dirty(&mut self, id: usize)
        requires
            old(self).wf(),
            old(self).contains(id),
        ensures
            final(self).wf(),
            final(self).rebound_from(old(self), id, old(self).binding(id), old(self).dependencies(id)),
    {
        let ghost before = *self;
        self.cascade(id);
        proof {
            assert forall|k: int| 0 <= k < before.dependencies(id).len() implies before.contains(
                #[trigger] before.dependencies(id)[k],
            ) by {
                assert(before.reads(id, before.dependencies(id)[k]));
            }
            self.lemma_rebound(&before, &before, &before, id, before.dependencies(id));
        }
    }
}

} // verus!
