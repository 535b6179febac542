use vstd::prelude::*;
use vstd::std_specs::cmp::PartialEqSpecImpl;
use core::marker::PhantomData;
use crate::cell::{Binding, FateCell, FateTrait};
use crate::error::FateError;
use crate::graph::Graph;

verus! {

/// The handle of a cell: names one cell of one graph, and stays the handle of
/// that cell however often the cell is bound anew. Handles are compared by
/// the cell they name, never by what the cell holds.
pub struct Fate<T> {
    id: usize,
    marker: PhantomData<T>,
}

impl<T> View for Fate<T> {
    type V = usize;

    /// The identity of the cell.
    closed spec fn view(&self) -> usize {
        self.id
    }
}

impl<T> Clone for Fate<T> {
    fn clone(&self) -> (copy: Self)
        ensures
            copy@ == self@,
    {
        Fate { id: self.id, marker: PhantomData }
    }
}

impl<T> Copy for Fate<T> {

}

impl<T> PartialEq for Fate<T> {
    fn eq(&self, other: &Self) -> (equal: bool) {
        self.id == other.id
    }
}

impl<T> PartialEqSpecImpl for Fate<T> {
    open spec fn obeys_eq_spec() -> bool {
        true
    }

    open spec fn eq_spec(&self, other: &Self) -> bool {
        self@ == other@
    }
}

impl<T> Eq for Fate<T> {

}

/// The identities of the cells that `handles` name, in order.
pub open spec fn ids_of<T>(handles: Seq<Fate<T>>) -> Seq<usize> {
    Seq::new(handles.len(), |k: int| handles[k]@)
}

impl<T> Fate<T> {
    /// The identity of the cell.
    pub fn get_id(&self) -> (id: usize)
        ensures
            id == self@,
    {
        self.id
    }

    /// The identities of the cells that `handles` name, in order.
    fn identities(handles: &Vec<Fate<T>>) -> (ids: Vec<usize>)
        ensures
            ids@ == ids_of(handles@),
    {
        let mut ids: Vec<usize> = Vec::new();
        let mut k: usize = 0;
        while k < handles.len()
            invariant
                k <= handles@.len(),
                ids@.len() == k,
                forall|j: int| 0 <= j < k ==> ids@[j] == #[trigger] handles@[j]@,
            decreases handles@.len() - k,
        {
            ids.push(handles[k].id);
            k += 1;
        }
        ids
    }
}

impl<T: Clone> Fate<T> {
    /// Makes a leaf: a cell bound to `value`. It is clean, has a clone of
    /// `value` cached, and has no edges.
    pub fn from_value<F: Fn(&Vec<T>) -> Option<T>>(graph: &mut Graph<T, F>, value: T) -> (fate: Fate<T>)
        ensures
            final(graph)@.wf(),
            final(graph)@.leaf_added(&old(graph)@, fate@, value),
    {
        let mut engine = graph.take();
        let id = engine.add_leaf(value);
        graph.put(engine);
        Fate { id, marker: PhantomData }
    }

    /// Makes a derived cell: a cell bound to `expression` over
    /// `dependencies`. The dependencies are read, in order, and the
    /// expression is evaluated at once on what they gave, so that the cell
    /// begins clean, with a value cached. Where a read fails or the
    /// expression has no value, no cell is made and the error is handed on.
    ///
    /// A cell is made whenever no dependency is or depends on a cell on a
    /// cycle and no expression that has to be evaluated turns out to have no
    /// value. None is made if a dependency is or depends on a cell on a
    /// cycle.
    pub fn from_expression<F: Fn(&Vec<T>) -> Option<T>>(
        graph: &mut Graph<T, F>,
        expression: F,
        dependencies: Vec<Fate<T>>,
    ) -> (outcome: Result<Fate<T>, FateError>)
        requires
            forall|k: int| 0 <= k < dependencies@.len() ==> old(graph)@.contains(#[trigger] dependencies@[k]@),
            forall|inputs: Vec<T>|
                inputs@.len() == dependencies@.len() ==> #[trigger] expression.requires((&inputs,)),
        ensures
            final(graph)@.wf(),
            match outcome {
                Ok(fate) => final(graph)@.derived_added(
                    &old(graph)@,
                    fate@,
                    expression,
                    ids_of(dependencies@),
                ),
                Err(FateError::CycleDetected) => {
                    &&& final(graph)@.refreshed_under(&old(graph)@, ids_of(dependencies@))
                    &&& exists|k: int|
                        0 <= k < dependencies@.len() && old(graph)@.cycle_under(#[trigger] dependencies@[k]@)
                },
                Err(FateError::ExpressionFailure) => {
                    &&& final(graph)@.refreshed_under(&old(graph)@, ids_of(dependencies@))
                    &&& final(graph)@.fails_on(expression, ids_of(dependencies@)) || exists|k: int|
                        0 <= k < dependencies@.len() && final(graph)@.failure_under(
                            #[trigger] dependencies@[k]@,
                        )
                },
            },
            (exists|k: int| 0 <= k < dependencies@.len() && old(graph)@.cycle_under(#[trigger] dependencies@[k]@))
                ==> outcome is Err,
    {
        let mut engine = graph.take();
        let ghost before = engine;
        let ids = Self::identities(&dependencies);
        let added = engine.add_derived(expression, ids);
        graph.put(engine);
        match added {
            Ok(id) => {
                proof {
                    assert forall|k: int| 0 <= k < dependencies@.len() implies !before.cycle_under(
                        #[trigger] dependencies@[k]@,
                    ) by {
                        assert(!before.cycle_under(ids@[k]));
                    }
                }
                Ok(Fate { id, marker: PhantomData })
            },
            Err(error) => {
                Err(error)
            },
        }
    }

    /// Reads the cell. A clean cell hands out a clone of what it has cached,
    /// and nothing changes. A dirty cell is recomputed first: its
    /// dependencies are read in the same way, in order, its binding is
    /// evaluated on what they gave, and the value is cached and the cell
    /// marked clean. Where that fails, the cell is left as it was.
    ///
    /// The read succeeds whenever the cell neither is nor depends on a cell
    /// on a cycle and no expression that has to be evaluated turns out to
    /// have no value. It fails if the cell is or depends on a cell on a
    /// cycle.
    pub fn get<F: Fn(&Vec<T>) -> Option<T>>(&self, graph: &mut Graph<T, F>) -> (outcome: Result<
        T,
        FateError,
    >)
        requires
            old(graph)@.contains(self@),
        ensures
            final(graph)@.wf(),
            final(graph)@.read_from(&old(graph)@, self@, outcome),
            old(graph)@.cycle_under(self@) ==> outcome is Err,
    {
        let mut engine = graph.take();
        let ghost before = engine;
        let outcome = engine.read(self.id);
        proof {
            let after = engine;
            after.lemma_same_wiring(&before);
            assert(after.idle()) by {
                assert forall|x: usize| after.contains(x) implies !#[trigger] after.evaluating(x) by {
                    assert(!before.evaluating(x));
                }
            }
            if outcome is Ok && before.cycle_under(self.id) {
                let x = choose|x: usize| #[trigger] before.reaches(x, self.id) && before.on_cycle(x);
                after.lemma_clean_over_clean(self.id, x);
                assert(after.on_cycle(x));
            }
        }
        graph.put(engine);
        outcome
    }

    /// Binds the cell to the literal `value`. The cell gives up its
    /// dependencies, and it and whatever it reaches is marked dirty.
    pub fn bind_value<F: Fn(&Vec<T>) -> Option<T>>(&self, graph: &mut Graph<T, F>, value: T)
        requires
            old(graph)@.contains(self@),
        ensures
            final(graph)@.wf(),
            final(graph)@.rebound_from(&old(graph)@, self@, Binding::Value(value), Seq::empty()),
    {
        let mut engine = graph.take();
        engine.rebind(self.id, Binding::Value(value), Vec::new());
        graph.put(engine);
    }

    /// Binds the cell to `expression` over `dependencies`. The cell gives up
    /// the dependencies it had for the new ones, and it and whatever it
    /// reaches is marked dirty. Nothing is evaluated before the next read.
    pub fn bind_expression<F: Fn(&Vec<T>) -> Option<T>>(
        &self,
        graph: &mut Graph<T, F>,
        expression: F,
        dependencies: Vec<Fate<T>>,
    )
        requires
            old(graph)@.contains(self@),
            forall|k: int| 0 <= k < dependencies@.len() ==> old(graph)@.contains(#[trigger] dependencies@[k]@),
            forall|inputs: Vec<T>|
                inputs@.len() == dependencies@.len() ==> #[trigger] expression.requires((&inputs,)),
        ensures
            final(graph)@.wf(),
            final(graph)@.rebound_from(
                &old(graph)@,
                self@,
                Binding::Expression(expression),
                ids_of(dependencies@),
            ),
    {
        let mut engine = graph.take();
        let ids = Self::identities(&dependencies);
        engine.rebind(self.id, Binding::Expression(expression), ids);
        graph.put(engine);
    }

    /// Hands the literal of the cell to `ref_fn`, in place. Does nothing if
    /// the cell is bound to an expression.
    pub fn by_ref<F: Fn(&Vec<T>) -> Option<T>, O: FnOnce(&T)>(&self, graph: &Graph<T, F>, ref_fn: O)
        requires
            graph@.contains(self@),
            graph@.binding(self@) matches Binding::Value(literal) ==> ref_fn.requires((&literal,)),
        ensures
            graph@.binding(self@) matches Binding::Value(literal) ==> ref_fn.ensures((&literal,), ()),
    {
        graph.engine.observe(self.id, ref_fn);
    }

    /// Lets `mut_ref_fn` change the literal of the cell in place, and then
    /// marks the cell and whatever it reaches dirty. Does nothing if the cell
    /// is bound to an expression.
    pub fn by_ref_mut<F: Fn(&Vec<T>) -> Option<T>, M: FnOnce(&mut T)>(
        &self,
        graph: &mut Graph<T, F>,
        mut_ref_fn: M,
    )
        requires
            old(graph)@.contains(self@),
            old(graph)@.binding(self@) matches Binding::Value(literal) ==> forall|payload: &mut T|
                *payload == literal ==> #[trigger] mut_ref_fn.requires((payload,)),
        ensures
            final(graph)@.wf(),
            match old(graph)@.binding(self@) {
                Binding::Value(literal) => exists|payload: &mut T|
                    *payload == literal && #[trigger] mut_ref_fn.ensures((payload,), ())
                        && final(graph)@.rebound_from(
                        &old(graph)@,
                        self@,
                        Binding::Value(*final(payload)),
                        Seq::empty(),
                    ),
                Binding::Expression(_) => final(graph)@@ == old(graph)@@,
            },
    {
        let mut engine = graph.take();
        engine.mutate(self.id, mut_ref_fn);
        graph.put(engine);
    }

    /// Marks the cell, and whatever it reaches, dirty.
    pub fn set_dirty<F: Fn(&Vec<T>) -> Option<T>>(&self, graph: &mut Graph<T, F>)
        requires
            old(graph)@.contains(self@),
        ensures
            final(graph)@.wf(),
            final(graph)@.rebound_from(
                &old(graph)@,
                self@,
                old(graph)@.binding(self@),
                old(graph)@.dependencies(self@),
            ),
    {
        let mut engine = graph.take();
        engine.mark_dirty(self.id);
        graph.put(engine);
    }
}

impl<T: Clone> Fate<T> {
    /// The record that the graph keeps for the cell.
    pub fn cell<'a, F: Fn(&Vec<T>) -> Option<T>>(&self, graph: &'a Graph<T, F>) -> (cell: &'a FateCell<
        T,
        F,
    >)
        requires
            graph@.contains(self@),
        ensures
            *cell == graph@.cell(self@),
    {
        graph.engine.at(self.id)
    }

    /// A clone of what the cell has cached, if the cell is clean: what a read
    /// would give, had without changing the graph.
    pub fn cached<F: Fn(&Vec<T>) -> Option<T>>(&self, graph: &Graph<T, F>) -> (value: Option<T>)
        requires
            graph@.contains(self@),
        ensures
            match value {
                Some(value) => !graph@.dirty(self@) && cloned(graph@.cache(self@), value),
                None => graph@.dirty(self@),
            },
    {
        let cell = graph.engine.at(self.id);
        if cell.is_dirty() {
            None
        } else {
            Some(cell.cached_value.clone())
        }
    }

    /// Whether the cell is dirty.
    pub fn is_dirty<F: Fn(&Vec<T>) -> Option<T>>(&self, graph: &Graph<T, F>) -> (dirty: bool)
        requires
            graph@.contains(self@),
        ensures
            dirty == graph@.dirty(self@),
    {
        graph.engine.at(self.id).is_dirty()
    }
}

} // verus!
