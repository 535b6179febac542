use vstd::prelude::*;
use crate::cell::{FateCell, FateTrait};
use crate::engine::Engine;

verus! {

/// Taking a value out of a list in which nothing occurs twice leaves a list
/// in which nothing occurs twice, and that holds what the list held but for
/// that value.
pub proof fn lemma_remove_value(ids: Seq<usize>, value: usize)
    requires
        ids.no_duplicates(),
    ensures
        ids.remove_value(value).no_duplicates(),
        forall|other: usize|
            #[trigger] ids.remove_value(value).contains(other) <==> ids.contains(other) && other
                != value,
{
    ids.index_of_first_ensures(value);
    let rest = ids.remove_value(value);
    match ids.index_of_first(value) {
        Some(index) => {
            assert forall|other: usize| #[trigger] rest.contains(other) <==> ids.contains(other) && other != value by {
                if ids.contains(other) && other != value {
                    let j = choose|j: int| 0 <= j < ids.len() && ids[j] == other;
                    if j < index {
                    } else {
                        assert(rest[j - 1] == other);
                    }
                }
            }
        },
        None => {},
    }
}

/// Adding a value that a list does not hold, to a list in which nothing
/// occurs twice, leaves a list in which nothing occurs twice.
pub proof fn lemma_push_absent(ids: Seq<usize>, value: usize)
    requires
        ids.no_duplicates(),
        !ids.contains(value),
    ensures
        ids.push(value).no_duplicates(),
        forall|other: usize|
            #[trigger] ids.push(value).contains(other) <==> ids.contains(other) || other == value,
{
    let more = ids.push(value);
    assert forall|other: usize| #[trigger] more.contains(other) <==> ids.contains(other) || other == value by {
        if ids.contains(other) {
            let j = choose|j: int| 0 <= j < ids.len() && ids[j] == other;
            assert(more[j] == other);
        }
        if other == value {
            assert(more[ids.len() as int] == other);
        }
    }
}

/// Two cell records agree on everything but their edge lists.
pub open spec fn same_payload<T, F>(a: FateCell<T, F>, b: FateCell<T, F>) -> bool {
    &&& a.id == b.id
    &&& a.binding == b.binding
    &&& a.cached_value == b.cached_value
    &&& a.dirty == b.dirty
    &&& a.evaluating == b.evaluating
}

impl<T, F> Engine<T, F> {
    /// `self` is `before` with the edges of `id` replaced: `id` now lists
    /// `dependencies`, exactly the cells among them list `id` as a dependent,
    /// and no other edge and nothing else has changed.
    pub open spec fn rewired(&self, before: &Self, id: usize, dependencies: Seq<usize>) -> bool {
        &&& self@.len() == before@.len()
        &&& forall|x: usize|
            before.contains(x) ==> same_payload(before.cell(x), #[trigger] self.cell(x))
        &&& forall|x: usize|
            before.contains(x) && x != id ==> #[trigger] self.dependencies(x) == before.dependencies(
                x,
            )
        &&& self.dependencies(id) == dependencies
        &&& forall|x: usize| before.contains(x) ==> #[trigger] self.dependents(x).no_duplicates()
        &&& forall|x: usize, y: usize|
            before.contains(x) && y != id ==> (#[trigger] self.notifies(x, y) <==> before.notifies(
                x,
                y,
            ))
        &&& forall|x: usize|
            before.contains(x) ==> (#[trigger] self.notifies(x, id) <==> dependencies.contains(x))
    }

    /// Replacing the edges of a cell by edges to cells of the graph leaves
    /// the edge lists sound.
    pub proof fn lemma_rewired_linked(&self, before: &Self, id: usize, dependencies: Seq<usize>)
        requires
            before.linked(),
            before.contains(id),
            self.rewired(before, id, dependencies),
            forall|k: int| 0 <= k < dependencies.len() ==> before.contains(#[trigger] dependencies[k]),
        ensures
            self.linked(),
    {
        assert forall|x: usize, y: usize| self.contains(x) && #[trigger] self.reads(x, y) implies self.contains(y) by {
            if x == id {
            } else {
                assert(before.reads(x, y));
            }
        }
    }

    /// Takes `id` out of the dependents of each of its dependencies.
    pub(crate) fn remove_all_dependencies(&mut self, id: usize)
        requires
            old(self).contains(id),
            old(self).linked(),
        ensures
            final(self)@.len() == old(self)@.len(),
            forall|x: usize|
                old(self).contains(x) ==> same_payload(old(self).cell(x), #[trigger] final(self).cell(x)),
            forall|x: usize|
                old(self).contains(x) ==> #[trigger] final(self).dependencies(x) == old(self).dependencies(x),
            forall|x: usize| old(self).contains(x) ==> #[trigger] final(self).dependents(x).no_duplicates(),
            forall|x: usize, y: usize|
                old(self).contains(x) && y != id ==> (#[trigger] final(self).notifies(x, y) <==> old(
                    self,
                ).notifies(x, y)),
            forall|x: usize| old(self).contains(x) ==> !#[trigger] final(self).notifies(x, id),
    {
        let ghost before = *self;
        let count = self.cells[id].dependencies.len();
        let mut k: usize = 0;
        while k < count
            invariant
                before.contains(id),
                before.linked(),
                self@.len() == before@.len(),
                count == before.dependencies(id).len(),
                k <= count,
                forall|x: usize|
                    before.contains(x) ==> same_payload(before.cell(x), #[trigger] self.cell(x)),
                forall|x: usize|
                    before.contains(x) ==> #[trigger] self.dependencies(x) == before.dependencies(x),
                forall|x: usize| before.contains(x) ==> #[trigger] self.dependents(x).no_duplicates(),
                forall|x: usize, y: usize|
                    before.contains(x) && y != id ==> (#[trigger] self.notifies(x, y) <==> before.notifies(
                        x,
                        y,
                    )),
                forall|x: usize|
                    before.contains(x) && #[trigger] self.notifies(x, id) ==> before.notifies(x, id),
                forall|j: int|
                    0 <= j < k ==> !self.notifies(#[trigger] before.dependencies(id)[j], id),
            decreases count - k,
        {
            let ghost previous = *self;
            assert(self.dependencies(id) == before.dependencies(id));
            let dependency = self.cells[id].dependencies[k];
            assert(before.reads(id, dependency));
            proof {
                lemma_remove_value(previous.dependents(dependency), id);
            }
            self.cells[dependency].remove_dependent(id);
            proof {
                assert forall|x: usize| before.contains(x) implies same_payload(
                    before.cell(x),
                    #[trigger] self.cell(x),
                ) && self.dependencies(x) == before.dependencies(x) && self.dependents(x).no_duplicates() by {
                    assert(previous.dependencies(x) == before.dependencies(x));
                    assert(previous.dependents(x).no_duplicates());
                }
                assert forall|x: usize, y: usize| before.contains(x) implies (y != id ==> (
                #[trigger] self.notifies(x, y) <==> before.notifies(x, y))) && (self.notifies(x, id)
                    ==> before.notifies(x, id)) by {
                    if y != id {
                        assert(previous.notifies(x, y) <==> before.notifies(x, y));
                    }
                    if self.notifies(x, id) {
                        assert(previous.notifies(x, id));
                    }
                }
                assert forall|j: int| 0 <= j < k + 1 implies !self.notifies(
                    #[trigger] before.dependencies(id)[j],
                    id,
                ) by {
                    let d = before.dependencies(id)[j];
                    assert(before.reads(id, d));
                }
            }
            k += 1;
        }
    }

    /// Takes `id` out of the dependents of each of its dependencies, gives it
    /// `dependencies` instead, and enters it among the dependents of each of
    /// those.
    pub(crate) fn set_dependencies(&mut self, id: usize, dependencies: Vec<usize>)
        requires
            old(self).contains(id),
            old(self).linked(),
            forall|k: int| 0 <= k < dependencies@.len() ==> old(self).contains(#[trigger] dependencies@[k]),
        ensures
            final(self).rewired(old(self), id, dependencies@),
            final(self).linked(),
    {
        let ghost before = *self;
        let ghost wanted = dependencies@;
        self.remove_all_dependencies(id);
        let ghost torn = *self;
        self.cells[id].dependencies = dependencies;
        let count = self.cells[id].dependencies.len();
        let mut k: usize = 0;
        proof {
            assert forall|x: usize| before.contains(x) implies same_payload(
                before.cell(x),
                #[trigger] self.cell(x),
            ) && self.dependents(x) == torn.dependents(x) && (x != id ==> self.dependencies(x)
                == before.dependencies(x)) by {
                assert(torn.dependencies(x) == before.dependencies(x));
            }
            assert forall|x: usize, y: usize| before.contains(x) && y != id implies (
            #[trigger] self.notifies(x, y) <==> before.notifies(x, y)) by {
                assert(torn.notifies(x, y) <==> before.notifies(x, y));
            }
            assert forall|x: usize| before.contains(x) implies (#[trigger] self.notifies(x, id)
                <==> wanted.take(0).contains(x)) by {
                assert(!torn.notifies(x, id));
            }
        }
        while k < count
            invariant
                before.contains(id),
                self@.len() == before@.len(),
                count == wanted.len(),
                k <= count,
                self.dependencies(id) == wanted,
                forall|j: int| 0 <= j < wanted.len() ==> before.contains(#[trigger] wanted[j]),
                forall|x: usize|
                    before.contains(x) ==> same_payload(before.cell(x), #[trigger] self.cell(x)),
                forall|x: usize|
                    before.contains(x) && x != id ==> #[trigger] self.dependencies(x)
                        == before.dependencies(x),
                forall|x: usize| before.contains(x) ==> #[trigger] self.dependents(x).no_duplicates(),
                forall|x: usize, y: usize|
                    before.contains(x) && y != id ==> (#[trigger] self.notifies(x, y) <==> before.notifies(
                        x,
                        y,
                    )),
                forall|x: usize|
                    before.contains(x) ==> (#[trigger] self.notifies(x, id) <==> wanted.take(
                        k as int,
                    ).contains(x)),
            decreases count - k,
        {
            let ghost previous = *self;
            let dependency = self.cells[id].dependencies[k];
            proof {
                if !previous.dependents(dependency).contains(id) {
                    lemma_push_absent(previous.dependents(dependency), id);
                }
            }
            self.cells[dependency].add_dependent(id);
            proof {
                assert forall|x: usize| before.contains(x) implies same_payload(
                    before.cell(x),
                    #[trigger] self.cell(x),
                ) && self.dependents(x).no_duplicates() && (x != id ==> self.dependencies(x)
                    == before.dependencies(x)) by {
                    assert(previous.dependents(x).no_duplicates());
                    if x != id {
                        assert(previous.dependencies(x) == before.dependencies(x));
                    }
                }
                assert forall|x: usize, y: usize| before.contains(x) && y != id implies (
                #[trigger] self.notifies(x, y) <==> before.notifies(x, y)) by {
                    assert(previous.notifies(x, y) <==> before.notifies(x, y));
                }
                assert forall|x: usize| before.contains(x) implies (#[trigger] self.notifies(x, id)
                    <==> wanted.take(k + 1).contains(x)) by {
                    let shorter = wanted.take(k as int);
                    let longer = wanted.take(k + 1);
                    assert(previous.notifies(x, id) <==> shorter.contains(x));
                    assert(longer[k as int] == dependency);
                }
            }
            k += 1;
        }
        proof {
            assert(wanted.take(count as int) =~= wanted);
            self.lemma_rewired_linked(&before, id, wanted);
        }
    }
}

} // verus!
