use vstd::prelude::*;
use crate::cell::FateTrait;
use crate::engine::Engine;

verus! {

/// How many of the positions below `bound` do not carry `flag`.
pub open spec fn unset_below(flag: spec_fn(usize) -> bool, bound: nat) -> nat
    decreases bound,
{
    if bound == 0 {
        0
    } else if flag((bound - 1) as usize) {
        unset_below(flag, (bound - 1) as nat)
    } else {
        unset_below(flag, (bound - 1) as nat) + 1
    }
}

/// Setting flags does not raise the count of unset ones, and setting the flag
/// of `witness` lowers it.
pub proof fn lemma_fewer_unset(
    before: spec_fn(usize) -> bool,
    after: spec_fn(usize) -> bool,
    bound: nat,
    witness: usize,
)
    requires
        bound <= usize::MAX,
        forall|x: usize| x < bound && #[trigger] before(x) ==> after(x),
    ensures
        unset_below(after, bound) <= unset_below(before, bound),
        witness < bound && !before(witness) && after(witness) ==> unset_below(after, bound)
            < unset_below(before, bound),
    decreases bound,
{
    if bound > 0 {
        lemma_fewer_unset(before, after, (bound - 1) as nat, witness);
    }
}

impl<T, F> Engine<T, F> {
    pub open spec fn dirty_marks(&self) -> spec_fn(usize) -> bool {
        |x: usize| self.dirty(x)
    }

    /// The number of clean cells.
    pub open spec fn clean_count(&self) -> nat {
        unset_below(self.dirty_marks(), self@.len())
    }

    /// `self` is `before` with more cells marked dirty, and nothing else
    /// changed.
    pub open spec fn marks_more(&self, before: &Self) -> bool {
        &&& self@.len() == before@.len()
        &&& forall|x: usize|
            before.contains(x) ==> #[trigger] self.cell(x) == before.cell(x).with_dirty(self.dirty(x))
        &&& forall|x: usize| before.contains(x) && #[trigger] before.dirty(x) ==> self.dirty(x)
    }

    /// Dirty marks are no part of what makes the edge lists sound, and no
    /// part of the chains.
    pub proof fn lemma_marks_keep_edges(&self, before: &Self)
        requires
            self.marks_more(before),
        ensures
            forall|x: usize| before.contains(x) ==> #[trigger] before.dependents(x) == self.dependents(x),
            forall|x: usize|
                before.contains(x) ==> #[trigger] before.dependencies(x) == self.dependencies(x),
            before.linked() ==> self.linked(),
            before.leaves_bare() ==> self.leaves_bare(),
    {
        if before.linked() {
            assert forall|x: usize, y: usize| self.contains(x) && #[trigger] self.reads(x, y) implies self.contains(y) by {
                assert(before.reads(x, y));
            }
            assert forall|x: usize, y: usize| self.contains(x) && #[trigger] self.notifies(x, y) implies self.contains(y) by {
                assert(before.notifies(x, y));
            }
            assert forall|x: usize| self.contains(x) implies #[trigger] self.dependents(x).no_duplicates() by {
                assert(before.dependents(x).no_duplicates());
            }
            assert forall|x: usize, y: usize|
                #![trigger self.reads(x, y)]
                #![trigger self.notifies(y, x)]
                self.contains(x) && self.contains(y) implies (self.reads(x, y) <==> self.notifies(y, x)) by {
                assert(before.reads(x, y) <==> before.notifies(y, x));
            }
        }
        if before.leaves_bare() {
            assert forall|x: usize| self.contains(x) && #[trigger] self.binding(x) is Value implies self.dependencies(x).len() == 0 by {
                assert(before.binding(x) is Value);
            }
        }
    }

    /// `self` is `before` after a cascade from `id`: `id` is dirty, every
    /// cell that has become dirty is one that `id` reaches, and all the
    /// dependents of such a cell are dirty.
    pub open spec fn cascaded_from(&self, before: &Self, id: usize) -> bool {
        &&& self.marks_more(before)
        &&& self.dirty(id)
        &&& forall|x: usize|
            self.contains(x) && #[trigger] self.dirty(x) && !before.dirty(x) ==> before.reaches(id, x)
        &&& forall|x: usize, y: usize|
            self.contains(x) && self.contains(y) && self.dirty(x) && !before.dirty(x)
                && #[trigger] self.notifies(x, y) ==> self.dirty(y)
    }

    /// A cascade from `id`, in a graph in which whoever but `id` reads a
    /// dirty cell is dirty, marks exactly what `id` reaches, and leaves a
    /// graph in which whoever reads a dirty cell is dirty.
    pub proof fn lemma_cascade_complete(&self, before: &Self, id: usize)
        requires
            before.contains(id),
            before.linked(),
            self.cascaded_from(before, id),
            forall|x: usize, y: usize|
                before.contains(x) && before.contains(y) && y != id && #[trigger] before.notifies(x, y)
                    && before.dirty(x) ==> before.dirty(y),
        ensures
            self.propagated(),
            forall|x: usize|
                self.contains(x) ==> (#[trigger] self.dirty(x) <==> before.dirty(x) || before.reaches(
                    id,
                    x,
                )),
    {
        assert forall|x: usize, y: usize|
            self.contains(x) && self.contains(y) && #[trigger] self.notifies(x, y) && self.dirty(x) implies self.dirty(y) by {
            assert(before.notifies(x, y));
        }
        let marked = Set::new(|x: usize| self.dirty(x));
        assert forall|x: usize, y: usize|
            marked.contains(x) && before.contains(x) && before.contains(y) && #[trigger] before.notifies(x, y) implies marked.contains(y) by {
            assert(self.notifies(x, y));
        }
        assert forall|x: usize| self.contains(x) && before.reaches(id, x) implies #[trigger] self.dirty(x) by {
            before.lemma_closed_holds_reach(marked, id, x);
        }
    }

    /// Marks `id` dirty and then, if it was clean, each of its dependents in
    /// the same way.
    pub(crate) fn cascade(&mut self, id: usize)
        requires
            old(self).contains(id),
            old(self).linked(),
        ensures
            final(self).cascaded_from(old(self), id),
        decreases old(self).clean_count(),
    {
        if self.cells[id].is_dirty() {
            return ;
        }
        let ghost before = *self;
        let size = self.cells.len();
        self.cells[id].set_dirty();
        let count = self.cells[id].dependents.len();
        let mut k: usize = 0;
        while k < count
            invariant
                before == *old(self),
                size == before@.len(),
                before.contains(id),
                before.linked(),
                !before.dirty(id),
                self.marks_more(&before),
                self.dirty(id),
                count == before.dependents(id).len(),
                k <= count,
                forall|j: int| 0 <= j < k ==> self.dirty(#[trigger] before.dependents(id)[j]),
                forall|x: usize|
                    self.contains(x) && #[trigger] self.dirty(x) && !before.dirty(x)
                        ==> before.reaches(id, x),
                forall|x: usize, y: usize|
                    self.contains(x) && self.contains(y) && x != id && self.dirty(x) && !before.dirty(x)
                        && #[trigger] self.notifies(x, y) ==> self.dirty(y),
            decreases count - k,
        {
            let ghost previous = *self;
            proof {
                self.lemma_marks_keep_edges(&before);
                lemma_fewer_unset(before.dirty_marks(), self.dirty_marks(), before@.len(), id);
            }
            let dependent = self.cells[id].dependents[k];
            assert(before.notifies(id, dependent));
            self.cascade(dependent);
            proof {
                before.lemma_same_chains(&previous);
                before.lemma_edge_leads(id, dependent);
                assert forall|x: usize|
                    self.contains(x) && #[trigger] self.dirty(x) && !before.dirty(x) implies before.reaches(id, x) by {
                    if !previous.dirty(x) {
                        before.lemma_reaches_reaches(id, dependent, x);
                    }
                }
                assert forall|j: int| 0 <= j < k + 1 implies self.dirty(
                    #[trigger] before.dependents(id)[j],
                ) by {
                    let d = before.dependents(id)[j];
                    assert(before.notifies(id, d));
                }
                assert forall|x: usize, y: usize|
                    self.contains(x) && self.contains(y) && x != id && self.dirty(x) && !before.dirty(x)
                        && #[trigger] self.notifies(x, y) implies self.dirty(y) by {
                    assert(previous.notifies(x, y));
                }
            }
            k += 1;
        }
    }
}

} // verus!
