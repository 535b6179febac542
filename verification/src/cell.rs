use vstd::prelude::*;

verus! {

/// What a cell is bound to.
pub enum Binding<T, F> {
    /// A literal payload.
    Value(T),
    /// An expression over the values of the cell's dependencies. It is handed
    /// one value per dependency, in the order in which they were declared.
    Expression(F),
}

impl<T: Default, F> Default for Binding<T, F> {
    /// A literal: the default value of its type.
    fn default() -> (binding: Self)
        ensures
            binding matches Binding::Value(literal) && T::default.ensures((), literal),
    {
        Binding::Value(T::default())
    }
}

/// The record the graph keeps for one cell.
pub struct FateCell<T, F> {
    /// The identity of the cell: its position in the graph.
    pub id: usize,
    pub binding: Binding<T, F>,
    /// The value last committed by a read.
    pub cached_value: T,
    /// Whether `cached_value` may be stale.
    pub dirty: bool,
    /// Whether a read of this cell is in progress further up the call stack.
    pub evaluating: bool,
    /// The cells this one reads, as declared, in order.
    pub dependencies: Vec<usize>,
    /// The cells that read this one.
    pub dependents: Vec<usize>,
}

/// What the dependency graph needs of a cell, whatever the type of its value:
/// its identity, its dirty mark and the list of cells that depend on it.
pub trait FateTrait {
    spec fn identity(&self) -> usize;

    spec fn marked(&self) -> bool;

    spec fn dependent_ids(&self) -> Seq<usize>;

    fn is_dirty(&self) -> (dirty: bool)
        ensures
            dirty == self.marked(),
    ;

    /// Marks this cell, and this cell only.
    fn set_dirty(&mut self)
        ensures
            final(self).marked(),
            final(self).identity() == old(self).identity(),
            final(self).dependent_ids() == old(self).dependent_ids(),
    ;

    /// Records `dependent` as a dependent, unless it already is one.
    fn add_dependent(&mut self, dependent: usize)
        ensures
            final(self).dependent_ids() == if old(self).dependent_ids().contains(dependent) {
                old(self).dependent_ids()
            } else {
                old(self).dependent_ids().push(dependent)
            },
            final(self).identity() == old(self).identity(),
            final(self).marked() == old(self).marked(),
    ;

    /// Forgets the first record of `dependent`, if there is one.
    fn remove_dependent(&mut self, dependent: usize)
        ensures
            final(self).dependent_ids() == old(self).dependent_ids().remove_value(dependent),
            final(self).identity() == old(self).identity(),
            final(self).marked() == old(self).marked(),
    ;

    fn get_id(&self) -> (id: usize)
        ensures
            id == self.identity(),
    ;
}

/// The first position at which `needle` occurs in `ids`.
pub fn position(ids: &Vec<usize>, needle: usize) -> (found: Option<usize>)
    ensures
        match found {
            Some(index) => {
                &&& index < ids@.len()
                &&& ids@[index as int] == needle
                &&& ids@.index_of_first(needle) == Some(index as int)
            },
            None => {
                &&& !ids@.contains(needle)
                &&& ids@.index_of_first(needle) is None
            },
        },
{
    let mut index: usize = 0;
    while index < ids.len()
        invariant
            index <= ids.len(),
            forall|j: int| 0 <= j < index ==> ids@[j] != needle,
        decreases ids.len() - index,
    {
        if ids[index] == needle {
            proof {
                ids@.index_of_first_ensures(needle);
            }
            return Some(index);
        }
        index += 1;
    }
    proof {
        ids@.index_of_first_ensures(needle);
    }
    None
}

impl<T, F> FateCell<T, F> {
    /// This cell with another dirty mark.
    pub open spec fn with_dirty(self, dirty: bool) -> Self {
        FateCell { dirty, ..self }
    }

    /// This cell with another mark of a read in progress.
    pub open spec fn with_evaluating(self, evaluating: bool) -> Self {
        FateCell { evaluating, ..self }
    }
}

impl<T, F> FateTrait for FateCell<T, F> {
    open spec fn identity(&self) -> usize {
        self.id
    }

    open spec fn marked(&self) -> bool {
        self.dirty
    }

    open spec fn dependent_ids(&self) -> Seq<usize> {
        self.dependents@
    }

    fn is_dirty(&self) -> (dirty: bool) {
        self.dirty
    }

    fn set_dirty(&mut self)
        ensures
            *final(self) == old(self).with_dirty(true),
    {
        self.dirty = true;
    }

    fn add_dependent(&mut self, dependent: usize)
        ensures
            final(self).binding == old(self).binding,
            final(self).cached_value == old(self).cached_value,
            final(self).evaluating == old(self).evaluating,
            final(self).dependencies == old(self).dependencies,
    {
        if position(&self.dependents, dependent).is_none() {
            self.dependents.push(dependent);
        }
    }

    fn remove_dependent(&mut self, dependent: usize)
        ensures
            final(self).binding == old(self).binding,
            final(self).cached_value == old(self).cached_value,
            final(self).evaluating == old(self).evaluating,
            final(self).dependencies == old(self).dependencies,
    {
        if let Some(index) = position(&self.dependents, dependent) {
            self.dependents.remove(index);
        }
    }

    fn get_id(&self) -> (id: usize) {
        self.id
    }
}

} // verus!
