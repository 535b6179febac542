use vstd::prelude::*;
use crate::cell::{Binding, FateCell};

pub mod bind;
pub mod dirty;
pub mod edges;
pub mod frames;
pub mod grow;
pub mod paths;
pub mod read;

verus! {

/// What a graph holds: the records of its cells, and with them the
/// dependency edges between the cells.
///
/// A cell is named by its position. Cells are only ever added, so a position
/// that names a cell once names the same cell for as long as the graph lives.
/// An engine may be in the middle of an operation; what holds of it then is
/// [`Engine::inv`], and between operations [`Engine::wf`].
pub struct Engine<T, F> {
    cells: Vec<FateCell<T, F>>,
}

impl<T, F> View for Engine<T, F> {
    type V = Seq<FateCell<T, F>>;

    closed spec fn view(&self) -> Seq<FateCell<T, F>> {
        self.cells@
    }
}

impl<T, F> Engine<T, F> {
    /// Whether `id` names a cell of this graph.
    pub open spec fn contains(&self, id: usize) -> bool {
        id < self@.len()
    }

    pub open spec fn cell(&self, id: usize) -> FateCell<T, F> {
        self@[id as int]
    }

    pub open spec fn binding(&self, id: usize) -> Binding<T, F> {
        self.cell(id).binding
    }

    pub open spec fn cache(&self, id: usize) -> T {
        self.cell(id).cached_value
    }

    pub open spec fn dirty(&self, id: usize) -> bool {
        self.cell(id).dirty
    }

    pub open spec fn evaluating(&self, id: usize) -> bool {
        self.cell(id).evaluating
    }

    pub open spec fn dependencies(&self, id: usize) -> Seq<usize> {
        self.cell(id).dependencies@
    }

    pub open spec fn dependents(&self, id: usize) -> Seq<usize> {
        self.cell(id).dependents@
    }

    /// `reader` lists `input` as a dependency.
    pub open spec fn reads(&self, reader: usize, input: usize) -> bool {
        self.dependencies(reader).contains(input)
    }

    /// `input` lists `reader` as a dependent.
    pub open spec fn notifies(&self, input: usize, reader: usize) -> bool {
        self.dependents(input).contains(reader)
    }

    /// The edge lists are sound: every cell carries its own position as its
    /// identity, edges join cells of this graph, no cell is listed twice
    /// among the dependents of another, and a cell lists another as a
    /// dependency exactly if that one lists it as a dependent.
    pub open spec fn linked(&self) -> bool {
        &&& forall|x: usize| self.contains(x) ==> (#[trigger] self.cell(x)).id == x
        &&& forall|x: usize, y: usize| self.contains(x) && #[trigger] self.reads(x, y) ==> self.contains(y)
        &&& forall|x: usize, y: usize| self.contains(x) && #[trigger] self.notifies(x, y) ==> self.contains(y)
        &&& forall|x: usize| self.contains(x) ==> #[trigger] self.dependents(x).no_duplicates()
        &&& forall|x: usize, y: usize|
            #![trigger self.reads(x, y)]
            #![trigger self.notifies(y, x)]
            self.contains(x) && self.contains(y) ==> (self.reads(x, y) <==> self.notifies(y, x))
    }

    /// A cell bound to a literal has no dependencies.
    pub open spec fn leaves_bare(&self) -> bool {
        forall|x: usize|
            self.contains(x) && #[trigger] self.binding(x) is Value ==> self.dependencies(x).len() == 0
    }

    /// No read is in progress.
    pub open spec fn idle(&self) -> bool {
        forall|x: usize| self.contains(x) ==> !#[trigger] self.evaluating(x)
    }

    /// Only a dirty cell is in the middle of a read.
    pub open spec fn evaluating_dirty(&self) -> bool {
        forall|x: usize| self.contains(x) && #[trigger] self.evaluating(x) ==> self.dirty(x)
    }

    /// Whoever reads a dirty cell is dirty too.
    pub open spec fn propagated(&self) -> bool {
        forall|x: usize, y: usize|
            self.contains(x) && self.contains(y) && #[trigger] self.notifies(x, y) && self.dirty(x)
                ==> self.dirty(y)
    }

    /// A chain of cells in which each is a dependent of the one before it.
    pub open spec fn flows(&self, path: Seq<usize>) -> bool {
        &&& path.len() >= 1
        &&& forall|k: int| 0 <= k < path.len() ==> self.contains(#[trigger] path[k])
        &&& forall|k: int| 0 <= k < path.len() - 1 ==> self.notifies(#[trigger] path[k], path[k + 1])
    }

    /// `to` depends on `from` through one or more edges.
    pub open spec fn leads_to(&self, from: usize, to: usize) -> bool {
        exists|path: Seq<usize>|
            #[trigger] self.flows(path) && path.len() >= 2 && path[0] == from && path.last() == to
    }

    /// `to` is `from` or depends on it, directly or through other cells: a
    /// change of `from` reaches `to`.
    pub open spec fn reaches(&self, from: usize, to: usize) -> bool {
        (from == to && self.contains(from)) || self.leads_to(from, to)
    }

    /// `x` depends on itself through one or more edges.
    pub open spec fn on_cycle(&self, x: usize) -> bool {
        self.leads_to(x, x)
    }

    /// Every cell that depends on itself is dirty.
    pub open spec fn cycles_dirty(&self) -> bool {
        forall|x: usize| self.contains(x) && #[trigger] self.on_cycle(x) ==> self.dirty(x)
    }

    /// The number of cells.
    pub(crate) fn len(&self) -> (len: usize)
        ensures
            len == self@.len(),
    {
        self.cells.len()
    }

    /// The record of the cell `id`.
    pub(crate) fn at(&self, id: usize) -> (cell: &FateCell<T, F>)
        requires
            self.contains(id),
        ensures
            *cell == self.cell(id),
    {
        &self.cells[id]
    }
}

impl<T: Clone, F: Fn(&Vec<T>) -> Option<T>> Engine<T, F> {
    /// The cells of `dependencies` are clean, and `inputs` holds a clone of
    /// what each of them has cached, in order.
    pub open spec fn inputs_ready(&self, dependencies: Seq<usize>, inputs: Vec<T>) -> bool {
        &&& inputs@.len() == dependencies.len()
        &&& forall|k: int|
            0 <= k < dependencies.len() ==> !self.dirty(#[trigger] dependencies[k]) && cloned(
                self.cache(dependencies[k]),
                inputs@[k],
            )
    }

    /// What `x` has cached is what its binding gives: a clone of the literal,
    /// or a value that its expression can return on clones of what its
    /// dependencies, all clean, have cached.
    pub open spec fn coherent(&self, x: usize) -> bool {
        match self.binding(x) {
            Binding::Value(literal) => cloned(literal, self.cache(x)),
            Binding::Expression(expression) => exists|inputs: Vec<T>|
                self.inputs_ready(self.dependencies(x), inputs) && #[trigger] expression.ensures(
                    (&inputs,),
                    Some(self.cache(x)),
                ),
        }
    }

    /// Every clean cell is coherent.
    pub open spec fn clean_coherent(&self) -> bool {
        forall|x: usize| self.contains(x) && !#[trigger] self.dirty(x) ==> self.coherent(x)
    }

    /// The expression of `x` may be called on any list of as many values as
    /// `x` has dependencies.
    pub open spec fn callable(&self, x: usize) -> bool {
        self.binding(x) matches Binding::Expression(expression) ==> forall|inputs: Vec<T>|
            inputs@.len() == self.dependencies(x).len() ==> #[trigger] expression.requires((&inputs,))
    }

    /// The cells of `dependencies` are clean, and `expression` may turn out
    /// to have no value on clones of what they have cached.
    pub open spec fn fails_on(&self, expression: F, dependencies: Seq<usize>) -> bool {
        exists|inputs: Vec<T>|
            self.inputs_ready(dependencies, inputs) && #[trigger] expression.ensures((&inputs,), None)
    }

    /// The dependencies of `x` are clean, and its expression may turn out to
    /// have no value on clones of what they have cached.
    pub open spec fn stuck(&self, x: usize) -> bool {
        self.binding(x) matches Binding::Expression(expression) && self.fails_on(
            expression,
            self.dependencies(x),
        )
    }

    pub open spec fn all_callable(&self) -> bool {
        forall|x: usize| self.contains(x) ==> #[trigger] self.callable(x)
    }

    /// What holds of a graph at every moment, also in the middle of a read.
    pub open spec fn inv(&self) -> bool {
        &&& self.linked()
        &&& self.leaves_bare()
        &&& self.evaluating_dirty()
        &&& self.propagated()
        &&& self.cycles_dirty()
        &&& self.clean_coherent()
        &&& self.all_callable()
    }

    /// What holds of a graph between operations.
    pub open spec fn wf(&self) -> bool {
        &&& self.inv()
        &&& self.idle()
    }

    /// An engine without cells.
    pub(crate) fn new() -> (graph: Self)
        ensures
            graph@.len() == 0,
            graph.wf(),
    {
        let graph = Engine { cells: Vec::new() };
        assert forall|x: usize| graph.contains(x) implies false by {}
        graph
    }
}

} // verus!
