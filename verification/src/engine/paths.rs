use vstd::prelude::*;
use crate::engine::Engine;

verus! {

impl<T, F> Engine<T, F> {
    /// An edge is a chain of two cells.
    pub proof fn lemma_edge_leads(&self, from: usize, to: usize)
        requires
            self.contains(from),
            self.contains(to),
            self.notifies(from, to),
        ensures
            self.leads_to(from, to),
    {
        let path = seq![from, to];
        assert(self.flows(path));
    }

    /// Two chains laid end to end are a chain.
    pub proof fn lemma_leads_leads(&self, from: usize, via: usize, to: usize)
        requires
            self.leads_to(from, via),
            self.leads_to(via, to),
        ensures
            self.leads_to(from, to),
    {
        let head = choose|path: Seq<usize>|
            #[trigger] self.flows(path) && path.len() >= 2 && path[0] == from && path.last() == via;
        let tail = choose|path: Seq<usize>|
            #[trigger] self.flows(path) && path.len() >= 2 && path[0] == via && path.last() == to;
        let path = head + tail.drop_first();
        assert(self.flows(path));
    }

    /// Reaching is transitive, and what is reached through at least one edge
    /// on either part of the way is reached through at least one edge.
    pub proof fn lemma_reaches_reaches(&self, from: usize, via: usize, to: usize)
        requires
            self.reaches(from, via),
            self.reaches(via, to),
        ensures
            self.reaches(from, to),
            self.leads_to(from, via) || self.leads_to(via, to) ==> self.leads_to(from, to),
    {
        if self.leads_to(from, via) && self.leads_to(via, to) {
            self.lemma_leads_leads(from, via, to);
        }
    }

    /// A chain arrives at its end over an edge from a cell that its start
    /// reaches.
    pub proof fn lemma_last_edge(&self, from: usize, to: usize) -> (before: usize)
        requires
            self.leads_to(from, to),
        ensures
            self.contains(before),
            self.contains(to),
            self.reaches(from, before),
            self.notifies(before, to),
    {
        let path = choose|path: Seq<usize>|
            #[trigger] self.flows(path) && path.len() >= 2 && path[0] == from && path.last() == to;
        let before = path[path.len() - 2];
        if path.len() > 2 {
            let head = path.drop_last();
            assert(self.flows(head));
        }
        before
    }

    /// Every cell of a chain that starts in a set closed under the edges is
    /// in that set.
    proof fn lemma_chain_stays(&self, marked: Set<usize>, path: Seq<usize>, k: int)
        requires
            self.flows(path),
            marked.contains(path[0]),
            forall|x: usize, y: usize|
                marked.contains(x) && self.contains(x) && self.contains(y) && #[trigger] self.notifies(
                    x,
                    y,
                ) ==> marked.contains(y),
            0 <= k < path.len(),
        ensures
            marked.contains(path[k]),
        decreases k,
    {
        if k > 0 {
            self.lemma_chain_stays(marked, path, k - 1);
        }
    }

    /// A set of cells that is closed under the edges holds everything that
    /// any of its members reaches.
    pub proof fn lemma_closed_holds_reach(&self, marked: Set<usize>, from: usize, to: usize)
        requires
            marked.contains(from),
            forall|x: usize, y: usize|
                marked.contains(x) && self.contains(x) && self.contains(y) && #[trigger] self.notifies(
                    x,
                    y,
                ) ==> marked.contains(y),
            self.reaches(from, to),
        ensures
            marked.contains(to),
    {
        if self.leads_to(from, to) {
            let path = choose|path: Seq<usize>|
                #[trigger] self.flows(path) && path.len() >= 2 && path[0] == from && path.last()
                    == to;
            self.lemma_chain_stays(marked, path, path.len() - 1);
        }
    }

    /// Chains are a matter of the dependents lists alone.
    pub proof fn lemma_same_chains(&self, other: &Self)
        requires
            self@.len() == other@.len(),
            forall|x: usize| self.contains(x) ==> #[trigger] self.dependents(x) == other.dependents(x),
        ensures
            forall|path: Seq<usize>| #[trigger] self.flows(path) == other.flows(path),
            forall|x: usize, y: usize| #[trigger] self.leads_to(x, y) == other.leads_to(x, y),
            forall|x: usize, y: usize| #[trigger] self.reaches(x, y) == other.reaches(x, y),
            forall|x: usize| #[trigger] self.on_cycle(x) == other.on_cycle(x),
    {
        assert forall|path: Seq<usize>| #[trigger] self.flows(path) == other.flows(path) by {}
        assert forall|x: usize, y: usize| #[trigger] self.leads_to(x, y) == other.leads_to(x, y) by {
            if other.leads_to(x, y) {
                let path = choose|path: Seq<usize>|
                    #[trigger] other.flows(path) && path.len() >= 2 && path[0] == x && path.last()
                        == y;
                assert(self.flows(path));
            }
        }
    }

    /// Where only the edges into `id` have changed, a cell that is on a
    /// cycle now is reached by `id` now or was on a cycle before.
    pub proof fn lemma_cycle_old_or_through(&self, before: &Self, id: usize, x: usize)
        requires
            self@.len() == before@.len(),
            forall|a: usize, b: usize|
                before.contains(a) && b != id ==> (#[trigger] self.notifies(a, b) <==> before.notifies(
                    a,
                    b,
                )),
            self.on_cycle(x),
        ensures
            self.reaches(id, x) || before.on_cycle(x),
    {
        let path = choose|path: Seq<usize>|
            #[trigger] self.flows(path) && path.len() >= 2 && path[0] == x && path.last() == x;
        if exists|k: int| 1 <= k < path.len() && path[k] == id {
            let k = choose|k: int| 1 <= k < path.len() && path[k] == id;
            if k < path.len() - 1 {
                let rest = path.subrange(k, path.len() as int);
                assert(self.flows(rest));
            }
        } else {
            assert(before.flows(path));
        }
    }

    /// A graph that has grown by one cell, which has no dependents, has the
    /// chains of two or more cells that it had.
    pub proof fn lemma_grown_chains(&self, before: &Self, added: usize)
        requires
            added == before@.len(),
            self@.len() == before@.len() + 1,
            before.linked(),
            forall|x: usize| before.contains(x) ==> #[trigger] self.dependents(x) == before.dependents(x),
            self.dependents(added).len() == 0,
        ensures
            forall|x: usize, y: usize| #[trigger] self.leads_to(x, y) == before.leads_to(x, y),
            forall|x: usize| #[trigger] self.on_cycle(x) == before.on_cycle(x),
            forall|x: usize, y: usize| before.contains(x) ==> #[trigger] self.reaches(x, y) == before.reaches(x, y),
    {
        assert forall|x: usize, y: usize| #[trigger] self.leads_to(x, y) == before.leads_to(x, y) by {
            if self.leads_to(x, y) {
                let path = choose|path: Seq<usize>|
                    #[trigger] self.flows(path) && path.len() >= 2 && path[0] == x && path.last()
                        == y;
                assert forall|j: int| 0 <= j < path.len() implies before.contains(#[trigger] path[j]) by {
                    if j < path.len() - 1 {
                    } else {
                        assert(before.notifies(path[j - 1], path[j - 1 + 1]));
                    }
                }
                assert(before.flows(path));
            }
            if before.leads_to(x, y) {
                let path = choose|path: Seq<usize>|
                    #[trigger] before.flows(path) && path.len() >= 2 && path[0] == x && path.last()
                        == y;
                assert(self.flows(path));
            }
        }
    }

    /// Where every cell has a greater identity than each of its
    /// dependencies, identities rise along a chain.
    proof fn lemma_chain_rises(&self, path: Seq<usize>, k: int)
        requires
            self.linked(),
            forall|reader: usize, input: usize|
                self.contains(reader) && #[trigger] self.reads(reader, input) ==> input < reader,
            self.flows(path),
            1 <= k < path.len(),
        ensures
            path[0] < path[k],
        decreases k,
    {
        if k > 1 {
            self.lemma_chain_rises(path, k - 1);
        }
    }

    /// Where every cell has a greater identity than each of its
    /// dependencies, a cell depends only on cells of smaller identity, and
    /// so never on itself.
    pub proof fn lemma_ordered_leads_up(&self, from: usize, to: usize)
        requires
            self.linked(),
            forall|reader: usize, input: usize|
                self.contains(reader) && #[trigger] self.reads(reader, input) ==> input < reader,
            self.leads_to(from, to),
        ensures
            from < to,
    {
        let path = choose|path: Seq<usize>|
            #[trigger] self.flows(path) && path.len() >= 2 && path[0] == from && path.last() == to;
        self.lemma_chain_rises(path, path.len() - 1);
    }
}

} // verus!
