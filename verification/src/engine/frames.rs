use vstd::prelude::*;
use crate::cell::Binding;
use crate::engine::Engine;

verus! {

impl<T, F> Engine<T, F> {
    /// `self` has the cells of `before`, each with the identity and the
    /// edges it has there.
    pub open spec fn same_edges(&self, before: &Self) -> bool {
        &&& self@.len() == before@.len()
        &&& forall|x: usize|
            before.contains(x) ==> {
                &&& (#[trigger] self.cell(x)).id == before.cell(x).id
                &&& self.cell(x).dependencies == before.cell(x).dependencies
                &&& self.cell(x).dependents == before.cell(x).dependents
            }
    }

    /// `self` has the cells of `before`, each with the identity, the binding
    /// and the edges it has there.
    pub open spec fn same_wiring(&self, before: &Self) -> bool {
        &&& self.same_edges(before)
        &&& forall|x: usize| before.contains(x) ==> #[trigger] self.binding(x) == before.binding(x)
    }

    /// What is said of the edges alone holds of two graphs with the same
    /// edges alike.
    pub proof fn lemma_same_edges(&self, before: &Self)
        requires
            self.same_edges(before),
        ensures
            before.linked() ==> self.linked(),
            forall|x: usize| before.contains(x) ==> #[trigger] self.dependencies(x) == before.dependencies(x),
            forall|x: usize| before.contains(x) ==> #[trigger] self.dependents(x) == before.dependents(x),
            forall|x: usize, y: usize| before.contains(x) ==> (#[trigger] self.reads(x, y) <==> before.reads(x, y)),
            forall|x: usize, y: usize| before.contains(x) ==> (#[trigger] self.notifies(x, y) <==> before.notifies(x, y)),
            forall|path: Seq<usize>| #[trigger] self.flows(path) == before.flows(path),
            forall|x: usize, y: usize| #[trigger] self.leads_to(x, y) == before.leads_to(x, y),
            forall|x: usize, y: usize| #[trigger] self.reaches(x, y) == before.reaches(x, y),
            forall|x: usize| #[trigger] self.on_cycle(x) == before.on_cycle(x),
    {
        assert forall|x: usize| before.contains(x) implies #[trigger] self.dependents(x)
            == before.dependents(x) && self.dependencies(x) == before.dependencies(x) by {}
        assert forall|x: usize, y: usize| before.contains(x) implies (#[trigger] self.reads(x, y)
            <==> before.reads(x, y)) by {}
        assert forall|x: usize, y: usize| before.contains(x) implies (#[trigger] self.notifies(x, y)
            <==> before.notifies(x, y)) by {}
        self.lemma_same_chains(before);
    }

    /// What is said of the edges and of which cells are leaves holds of two
    /// graphs with the same wiring alike.
    pub proof fn lemma_same_wiring(&self, before: &Self)
        requires
            self.same_wiring(before),
        ensures
            before.linked() ==> self.linked(),
            before.leaves_bare() ==> self.leaves_bare(),
            forall|x: usize| before.contains(x) ==> #[trigger] self.dependencies(x) == before.dependencies(x),
            forall|x: usize| before.contains(x) ==> #[trigger] self.dependents(x) == before.dependents(x),
            forall|x: usize, y: usize| before.contains(x) ==> (#[trigger] self.reads(x, y) <==> before.reads(x, y)),
            forall|x: usize, y: usize| before.contains(x) ==> (#[trigger] self.notifies(x, y) <==> before.notifies(x, y)),
            forall|path: Seq<usize>| #[trigger] self.flows(path) == before.flows(path),
            forall|x: usize, y: usize| #[trigger] self.leads_to(x, y) == before.leads_to(x, y),
            forall|x: usize, y: usize| #[trigger] self.reaches(x, y) == before.reaches(x, y),
            forall|x: usize| #[trigger] self.on_cycle(x) == before.on_cycle(x),
    {
        self.lemma_same_edges(before);
    }

    /// In a graph with sound edge lists in which whoever reads a dirty cell
    /// is dirty, whatever a clean cell depends on is clean.
    pub proof fn lemma_clean_over_clean(&self, id: usize, input: usize)
        requires
            self.linked(),
            self.propagated(),
            self.contains(id),
            !self.dirty(id),
            self.reaches(input, id),
        ensures
            self.contains(input),
            !self.dirty(input),
    {
        if self.dirty(input) {
            let marked = Set::new(|x: usize| self.dirty(x));
            self.lemma_closed_holds_reach(marked, input, id);
        }
    }

    /// The inputs of a clean cell are clean.
    pub proof fn lemma_clean_reads_clean(&self, id: usize, input: usize)
        requires
            self.linked(),
            self.propagated(),
            self.contains(id),
            !self.dirty(id),
            self.reads(id, input),
        ensures
            self.contains(input),
            !self.dirty(input),
    {
    }

    /// A cell none of whose inputs is on a cycle is on none.
    pub proof fn lemma_off_cycle(&self, id: usize)
        requires
            self.linked(),
            self.contains(id),
            forall|input: usize| #[trigger] self.reads(id, input) ==> !self.on_cycle(input),
        ensures
            !self.on_cycle(id),
    {
        if self.on_cycle(id) {
            let input = self.lemma_last_edge(id, id);
            self.lemma_edge_leads(input, id);
            self.lemma_reaches_reaches(input, id, input);
        }
    }
}

impl<T: Clone, F: Fn(&Vec<T>) -> Option<T>> Engine<T, F> {
    /// What is said of the expressions alone holds of two graphs with the
    /// same wiring alike.
    pub proof fn lemma_same_expressions(&self, before: &Self)
        requires
            self.same_wiring(before),
        ensures
            forall|x: usize| before.contains(x) ==> #[trigger] self.callable(x) == before.callable(x),
            before.all_callable() ==> self.all_callable(),
    {
        assert forall|x: usize| before.contains(x) implies #[trigger] self.callable(x) == before.callable(x) by {}
    }

    /// A cell that is coherent stays so as long as its binding, its
    /// dependencies and what it has cached stay, and its dependencies stay
    /// clean with what they have cached.
    pub proof fn lemma_coherent_kept(&self, before: &Self, x: usize)
        requires
            before.coherent(x),
            self.binding(x) == before.binding(x),
            self.dependencies(x) == before.dependencies(x),
            self.cache(x) == before.cache(x),
            forall|k: int|
                0 <= k < before.dependencies(x).len() ==> self.cache(#[trigger] before.dependencies(x)[k])
                    == before.cache(before.dependencies(x)[k]) && !self.dirty(before.dependencies(x)[k]),
        ensures
            self.coherent(x),
    {
    }
}

} // verus!
