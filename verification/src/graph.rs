use vstd::prelude::*;
use crate::engine::Engine;
use crate::graph::fate::Fate;

pub mod fate;

verus! {

/// The cells of one reactive system and the dependency edges between them.
///
/// A graph is well-formed whenever it is in reach: no operation leaves it
/// otherwise, and none asks its caller for it. What it holds is told by its
/// view.
#[verifier::reject_recursive_types(T)]
pub struct Graph<T: Clone, F: Fn(&Vec<T>) -> Option<T>> {
    pub(crate) engine: Engine<T, F>,
}

impl<T: Clone, F: Fn(&Vec<T>) -> Option<T>> Graph<T, F> {
    /// What the graph holds.
    pub closed spec fn view(&self) -> Engine<T, F> {
        self.engine
    }

    #[verifier::type_invariant]
    spec fn sound(self) -> bool {
        self.engine.wf()
    }

    /// A graph without cells.
    pub fn new() -> (graph: Self)
        ensures
            graph@@.len() == 0,
            graph@.wf(),
    {
        Graph { engine: Engine::new() }
    }

    /// The number of cells.
    pub fn len(&self) -> (len: usize)
        ensures
            len == self@@.len(),
    {
        self.engine.len()
    }

    /// Whether `fate` names a cell of this graph.
    pub fn holds(&self, fate: &Fate<T>) -> (held: bool)
        ensures
            held == self@.contains(fate@),
    {
        fate.get_id() < self.engine.len()
    }

    /// Whether each of `fates` names a cell of this graph.
    pub fn holds_all(&self, fates: &Vec<Fate<T>>) -> (held: bool)
        ensures
            held == forall|k: int| 0 <= k < fates@.len() ==> self@.contains(#[trigger] fates@[k]@),
    {
        let mut k: usize = 0;
        while k < fates.len()
            invariant
                k <= fates@.len(),
                forall|j: int| 0 <= j < k ==> self@.contains(#[trigger] fates@[j]@),
            decreases fates@.len() - k,
        {
            if !self.holds(&fates[k]) {
                return false;
            }
            k += 1;
        }
        true
    }

    /// Takes the engine out, leaving an empty one.
    pub(crate) fn take(&mut self) -> (engine: Engine<T, F>)
        ensures
            engine == old(self)@,
            engine.wf(),
    {
        proof {
            use_type_invariant(&*self);
        }
        let mut engine = Engine::new();
        core::mem::swap(&mut self.engine, &mut engine);
        engine
    }

    /// Puts an engine in.
    pub(crate) fn put(&mut self, engine: Engine<T, F>)
        requires
            engine.wf(),
        ensures
            final(self)@ == engine,
    {
        self.engine = engine;
    }

    /// Does nothing; lets a caller that holds a graph know that it is
    /// well-formed.
    pub fn well_formed(&self)
        ensures
            self@.wf(),
    {
        proof {
            use_type_invariant(self);
        }
    }
}

} // verus!
