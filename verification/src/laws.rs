//! What holds of every well-formed graph and of every sequence of
//! operations on one, stated over the graph as the operations' own contracts
//! describe it.
use vstd::prelude::*;
use crate::cell::Binding;
use crate::error::FateError;
use crate::engine::Engine;

verus! {

/// Every edge is kept from both ends. A cell lists another as a dependency
/// exactly if that one lists it as a dependent, and then it is listed there
/// exactly once; a cell that does not list the other is not listed there at
/// all.
pub proof fn law_edge_symmetry<T: Clone, F: Fn(&Vec<T>) -> Option<T>>(
    graph: Engine<T, F>,
    reader: usize,
    input: usize,
)
    requires
        graph.wf(),
        graph.contains(reader),
        graph.contains(input),
    ensures
        graph.reads(reader, input) <==> graph.notifies(input, reader),
        graph.dependents(input).to_multiset().count(reader) == if graph.reads(reader, input) {
            1nat
        } else {
            0nat
        },
{
    let listed = graph.dependents(input);
    listed.lemma_multiset_has_no_duplicates();
    vstd::seq_lib::to_multiset_contains(listed, reader);
}

/// Edges join cells of the graph: what a cell lists as a dependency or as a
/// dependent is a cell of the same graph.
pub proof fn law_no_dangling_edge<T: Clone, F: Fn(&Vec<T>) -> Option<T>>(
    graph: Engine<T, F>,
    from: usize,
    to: usize,
)
    requires
        graph.wf(),
        graph.contains(from),
        graph.reads(from, to) || graph.notifies(from, to),
    ensures
        graph.contains(to),
{
}

/// A rebind replaces the dependencies as a whole. After a cell was bound
/// anew, exactly the new dependencies list it as a dependent: one that was
/// dropped no longer does, one that was kept or added does. What any cell
/// lists of other dependents is as it was.
pub proof fn law_rebind_replaces_edges<T: Clone, F: Fn(&Vec<T>) -> Option<T>>(
    before: Engine<T, F>,
    after: Engine<T, F>,
    id: usize,
    binding: Binding<T, F>,
    dependencies: Seq<usize>,
    other: usize,
)
    requires
        before.wf(),
        before.contains(id),
        before.contains(other),
        after.wf(),
        after.rebound_from(&before, id, binding, dependencies),
    ensures
        after.notifies(other, id) <==> dependencies.contains(other),
        after.reads(id, other) <==> dependencies.contains(other),
        before.reads(id, other) && !dependencies.contains(other) ==> !after.notifies(other, id),
        forall|third: usize| third != id ==> (after.notifies(other, third) <==> before.notifies(other, third)),
{
}

/// A write clears no mark. Binding a cell anew, mutating it in place or
/// marking it dirty marks the cell and what the cell reaches, and leaves
/// every other cell as dirty or clean as it was, with what it had cached.
pub proof fn law_marks_stay<T: Clone, F: Fn(&Vec<T>) -> Option<T>>(
    before: Engine<T, F>,
    after: Engine<T, F>,
    id: usize,
    binding: Binding<T, F>,
    dependencies: Seq<usize>,
    other: usize,
)
    requires
        before.wf(),
        before.contains(id),
        before.contains(other),
        after.rebound_from(&before, id, binding, dependencies),
    ensures
        before.dirty(other) ==> after.dirty(other),
        after.dirty(id),
        after.reaches(id, other) ==> after.dirty(other),
        !after.reaches(id, other) ==> after.dirty(other) == before.dirty(other) && after.cache(other)
            == before.cache(other),
{
}

/// Only a read clears a mark, and only by committing a value. A read changes
/// a cell only if the cell was dirty and is, or is depended on by, the cell
/// that was read; a cell that it changed is clean afterwards and coherent.
pub proof fn law_read_only_refreshes<T: Clone, F: Fn(&Vec<T>) -> Option<T>>(
    before: Engine<T, F>,
    after: Engine<T, F>,
    id: usize,
    outcome: Result<T, FateError>,
    other: usize,
)
    requires
        before.wf(),
        before.contains(id),
        before.contains(other),
        after.wf(),
        after.read_from(&before, id, outcome),
    ensures
        after.cell(other) != before.cell(other) ==> before.dirty(other) && before.reaches(other, id)
            && !after.dirty(other) && after.coherent(other),
        after.dirty(other) ==> before.dirty(other),
        after.binding(other) == before.binding(other),
        after.dependencies(other) == before.dependencies(other),
        after.dependents(other) == before.dependents(other),
{
    assert(after.dirty(other) ==> after.cell(other) == before.cell(other));
}

/// Reading twice is reading once. After a read that succeeded, a second
/// read of the same cell succeeds too, hands out a clone of the same cached
/// value, and leaves the graph, dirty marks included, exactly as the first
/// left it. Where a clone of a value equals the value, the two reads give
/// the same.
pub proof fn law_idempotent_read<T: Clone, F: Fn(&Vec<T>) -> Option<T>>(
    before: Engine<T, F>,
    between: Engine<T, F>,
    after: Engine<T, F>,
    id: usize,
    first: T,
    second: Result<T, FateError>,
)
    requires
        before.wf(),
        before.contains(id),
        between.read_from(&before, id, Ok(first)),
        after.read_from(&between, id, second),
    ensures
        after@ == between@,
        second is Ok,
        cloned(between.cache(id), first),
        cloned(between.cache(id), second->Ok_0),
        (forall|a: T, b: T| cloned(a, b) ==> a == b) ==> second == Ok::<T, FateError>(first),
{
}

/// What a clean cell shows is up to date. Whatever a clean cell is or
/// depends on is clean and coherent: its cached value is what its binding
/// gives on the values that its dependencies have cached now. None of it is
/// on a cycle.
pub proof fn law_clean_is_consistent<T: Clone, F: Fn(&Vec<T>) -> Option<T>>(
    graph: Engine<T, F>,
    id: usize,
    input: usize,
)
    requires
        graph.wf(),
        graph.contains(id),
        !graph.dirty(id),
        graph.reaches(input, id),
    ensures
        graph.contains(input),
        !graph.dirty(input),
        graph.coherent(input),
        !graph.on_cycle(input),
{
    graph.lemma_clean_over_clean(id, input);
}

/// A write is seen by every reader. After a cell was bound to a literal,
/// every cell that depends on it, over however many cells between, is dirty;
/// and once such a cell has been read with success, the written cell is
/// clean with a clone of the literal cached, and the cell that was read and
/// everything it depends on is clean and coherent.
pub proof fn law_write_then_read<T: Clone, F: Fn(&Vec<T>) -> Option<T>>(
    before: Engine<T, F>,
    written: Engine<T, F>,
    read: Engine<T, F>,
    leaf: usize,
    literal: T,
    reader: usize,
    value: T,
)
    requires
        before.wf(),
        before.contains(leaf),
        before.contains(reader),
        written.wf(),
        written.rebound_from(&before, leaf, Binding::Value(literal), Seq::empty()),
        written.reaches(leaf, reader),
        read.wf(),
        read.read_from(&written, reader, Ok(value)),
    ensures
        written.dirty(reader),
        !read.dirty(leaf),
        read.binding(leaf) == Binding::<T, F>::Value(literal),
        cloned(literal, read.cache(leaf)),
        cloned(read.cache(reader), value),
        forall|input: usize|
            #[trigger] read.reaches(input, reader) ==> !read.dirty(input) && read.coherent(input),
{
    read.lemma_same_wiring(&written);
    read.lemma_clean_over_clean(reader, leaf);
    assert forall|input: usize| #[trigger] read.reaches(input, reader) implies !read.dirty(input)
        && read.coherent(input) by {
        read.lemma_clean_over_clean(reader, input);
    }
}

/// A read says what stood in its way. A read of a cell that is or depends
/// on a cell that depends on itself fails, and a read reports a cycle only
/// where there is one. A read that fails for want of a value has met a dirty
/// cell whose expression may have none on what its dependencies have cached.
/// Where neither stands in the way the read succeeds; where it fails, the
/// cell is left as it was.
pub proof fn law_cycles_are_reported<T: Clone, F: Fn(&Vec<T>) -> Option<T>>(
    before: Engine<T, F>,
    after: Engine<T, F>,
    id: usize,
    outcome: Result<T, FateError>,
)
    requires
        before.wf(),
        before.contains(id),
        after.wf(),
        after.read_from(&before, id, outcome),
    ensures
        before.cycle_under(id) ==> outcome is Err,
        outcome == Err::<T, FateError>(FateError::CycleDetected) ==> before.cycle_under(id),
        outcome == Err::<T, FateError>(FateError::ExpressionFailure) ==> after.failure_under(id),
        !before.cycle_under(id) && !after.failure_under(id) ==> outcome is Ok,
        outcome is Err ==> after.cell(id) == before.cell(id),
{
    after.lemma_same_wiring(&before);
    if outcome is Ok && before.cycle_under(id) {
        let x = choose|x: usize| #[trigger] before.reaches(x, id) && before.on_cycle(x);
        after.lemma_clean_over_clean(id, x);
        assert(after.on_cycle(x));
    }
}

/// A rebind that closes a cycle leaves every cell on the cycle dirty, so that
/// the next read of any of them reports it.
pub proof fn law_closed_cycle_is_dirty<T: Clone, F: Fn(&Vec<T>) -> Option<T>>(
    graph: Engine<T, F>,
    id: usize,
)
    requires
        graph.wf(),
        graph.contains(id),
        graph.on_cycle(id),
    ensures
        graph.dirty(id),
        graph.cycle_under(id),
{
    assert(graph.reaches(id, id));
}

/// A graph in which every cell was made after its dependencies, so that it
/// has a greater identity than each of them, has no cycle: nothing stands in
/// the way of a read but an expression without a value.
pub proof fn law_ordered_has_no_cycle<T: Clone, F: Fn(&Vec<T>) -> Option<T>>(graph: Engine<T, F>, id: usize)
    requires
        graph.wf(),
        forall|reader: usize, input: usize|
            graph.contains(reader) && #[trigger] graph.reads(reader, input) ==> input < reader,
    ensures
        !graph.on_cycle(id),
        !graph.cycle_under(id),
{
    if graph.on_cycle(id) {
        graph.lemma_ordered_leads_up(id, id);
    }
    if graph.cycle_under(id) {
        let x = choose|x: usize| #[trigger] graph.reaches(x, id) && graph.on_cycle(x);
        graph.lemma_ordered_leads_up(x, x);
    }
}

/// A clean cell stands in the way of no read: neither it nor anything it
/// depends on is on a cycle or is dirty.
pub proof fn law_clean_is_no_obstacle<T: Clone, F: Fn(&Vec<T>) -> Option<T>>(graph: Engine<T, F>, id: usize)
    requires
        graph.wf(),
        graph.contains(id),
        !graph.dirty(id),
    ensures
        !graph.cycle_under(id),
        !graph.failure_under(id),
{
    if graph.cycle_under(id) {
        let x = choose|x: usize| #[trigger] graph.reaches(x, id) && graph.on_cycle(x);
        law_clean_is_consistent(graph, id, x);
    }
    if graph.failure_under(id) {
        let x = choose|x: usize| #[trigger] graph.reaches(x, id) && graph.dirty(x) && graph.stuck(x);
        law_clean_is_consistent(graph, id, x);
    }
}

/// The identity of a cell is its place in the graph, and no operation moves
/// a cell: after a rebind, a mutation in place or a read, every cell has the
/// identity it had.
pub proof fn law_identity_stays<T: Clone, F: Fn(&Vec<T>) -> Option<T>>(
    before: Engine<T, F>,
    after: Engine<T, F>,
    id: usize,
    binding: Binding<T, F>,
    dependencies: Seq<usize>,
    outcome: Result<T, FateError>,
    other: usize,
)
    requires
        before.wf(),
        before.contains(id),
        before.contains(other),
        after.rebound_from(&before, id, binding, dependencies) || after.read_from(&before, id, outcome),
    ensures
        after@.len() == before@.len(),
        after.contains(other),
        after.cell(other).id == other,
        before.cell(other).id == other,
{
}

} // verus!
