//! A graph behind a lock, for holders that cannot agree on who has it.
//!
//! Every operation tries the lock once and gives up if the graph is in use:
//! by another holder, or by the caller itself further up the call stack, as
//! when an expression reaches back into the graph that evaluates it. What an
//! operation finds in the graph is whatever the other holders left there, so
//! no contract of a [`SharedGraph`] speaks of it. What each operation does
//! with what the lock gave, a graph or none, is a function of its own here,
//! with its contract: [`get_found`] for [`SharedGraph::get`], and so on.
use vstd::prelude::*;
use std::sync::Arc;
use crate::cell::Binding;
use crate::engine::Engine;
use crate::error::FateError;
use crate::graph::fate::{ids_of, Fate};
use crate::graph::Graph;

verus! {

/// `parking_lot::RawRwLock`, the lock that `parking_lot::RwLock` is made of.
/// Nothing is said of it.
#[verifier::external_type_specification]
#[verifier::external_body]
pub struct ExRawRwLock(parking_lot::RawRwLock);

/// `lock_api::RwLock`, of which `parking_lot::RwLock` is the instance over
/// `parking_lot::RawRwLock`. Nothing is said of what it holds.
#[verifier::external_type_specification]
#[verifier::external_body]
#[verifier::reject_recursive_types(R)]
#[verifier::reject_recursive_types(T)]
pub struct ExRwLock<R, T: ?Sized>(parking_lot::lock_api::RwLock<R, T>);

/// What `parking_lot::RwLock::try_write` gave: a write guard, or nothing.
/// The guard is kept out of sight because its type is bounded by a trait of
/// `lock_api`.
#[verifier::external_body]
#[verifier::reject_recursive_types(T)]
#[verifier::reject_recursive_types(F)]
pub struct WriteAttempt<'a, T: Clone, F: Fn(&Vec<T>) -> Option<T>> {
    guard: Option<parking_lot::RwLockWriteGuard<'a, Graph<T, F>>>,
}

/// What `parking_lot::RwLock::try_read` gave: a read guard, or nothing.
#[verifier::external_body]
#[verifier::reject_recursive_types(T)]
#[verifier::reject_recursive_types(F)]
pub struct ReadAttempt<'a, T: Clone, F: Fn(&Vec<T>) -> Option<T>> {
    guard: Option<parking_lot::RwLockReadGuard<'a, Graph<T, F>>>,
}

/// `parking_lot::RwLock::new`: a lock that holds `graph`. Nothing is claimed
/// of the lock.
#[verifier::external_body]
fn lock_around<T: Clone, F: Fn(&Vec<T>) -> Option<T>>(graph: Graph<T, F>) -> parking_lot::RwLock<
    Graph<T, F>,
> {
    parking_lot::RwLock::new(graph)
}

/// `Arc::clone`: one more owner of the same lock. Nothing is claimed of the
/// result.
#[verifier::external_body]
fn another<T: Clone, F: Fn(&Vec<T>) -> Option<T>>(lock: &Arc<parking_lot::RwLock<Graph<T, F>>>) -> Arc<
    parking_lot::RwLock<Graph<T, F>>,
> {
    Arc::clone(lock)
}

/// `parking_lot::RwLock::try_write`, which returns at once, with a guard if
/// nobody holds the lock. Nothing is claimed of the outcome.
#[verifier::external_body]
fn try_write_lock<'a, T: Clone, F: Fn(&Vec<T>) -> Option<T>>(
    lock: &'a parking_lot::RwLock<Graph<T, F>>,
) -> WriteAttempt<'a, T, F> {
    WriteAttempt { guard: lock.try_write() }
}

/// `parking_lot::RwLock::try_read`, which returns at once, with a guard if
/// no writer holds the lock. Nothing is claimed of the outcome.
#[verifier::external_body]
fn try_read_lock<'a, T: Clone, F: Fn(&Vec<T>) -> Option<T>>(
    lock: &'a parking_lot::RwLock<Graph<T, F>>,
) -> ReadAttempt<'a, T, F> {
    ReadAttempt { guard: lock.try_read() }
}

/// `Option::as_deref_mut` on the write guard: the graph that the guard
/// gives access to, if there is a guard. Nothing is claimed of the graph.
#[verifier::external_body]
fn exclusive<'a, 'b, T: Clone, F: Fn(&Vec<T>) -> Option<T>>(
    attempt: &'a mut WriteAttempt<'b, T, F>,
) -> Option<&'a mut Graph<T, F>> {
    attempt.guard.as_deref_mut()
}

/// `Option::as_deref` on the read guard: the graph that the guard gives
/// access to, if there is a guard. Nothing is claimed of the graph.
#[verifier::external_body]
fn common<'a, 'b, T: Clone, F: Fn(&Vec<T>) -> Option<T>>(attempt: &'a ReadAttempt<'b, T, F>) -> Option<
    &'a Graph<T, F>,
> {
    attempt.guard.as_deref()
}

/// How an operation on a shared graph went.
#[derive(Debug, PartialEq, Eq)]
pub enum Access<R> {
    /// The graph was in use; nothing was done.
    Busy,
    /// A handle names no cell of the graph; nothing was done.
    Unknown,
    /// The operation was carried out, with this result.
    Done(R),
}

impl<R> Access<R> {
    /// The result, if the operation was carried out.
    pub fn done(self) -> (result: Option<R>)
        ensures
            result == match self {
                Access::Done(outcome) => Some(outcome),
                _ => None,
            },
    {
        match self {
            Access::Done(outcome) => Some(outcome),
            _ => None,
        }
    }
}

/// What making a derived cell bound to `expression` over `dependencies`, in
/// a graph that held `before`, has left, and what it gave: the cell added
/// after its dependencies were read, or no cell and what stood in the way.
pub open spec fn derived_in<T: Clone, F: Fn(&Vec<T>) -> Option<T>>(
    after: Engine<T, F>,
    before: Engine<T, F>,
    expression: F,
    dependencies: Seq<Fate<T>>,
    outcome: Result<Fate<T>, FateError>,
) -> bool {
    &&& after.wf()
    &&& match outcome {
        Ok(fate) => after.derived_added(&before, fate@, expression, ids_of(dependencies)),
        Err(FateError::CycleDetected) => {
            &&& after.refreshed_under(&before, ids_of(dependencies))
            &&& exists|k: int| 0 <= k < dependencies.len() && before.cycle_under(#[trigger] dependencies[k]@)
        },
        Err(FateError::ExpressionFailure) => {
            &&& after.refreshed_under(&before, ids_of(dependencies))
            &&& after.fails_on(expression, ids_of(dependencies)) || exists|k: int|
                0 <= k < dependencies.len() && after.failure_under(#[trigger] dependencies[k]@)
        },
    }
    &&& (exists|k: int| 0 <= k < dependencies.len() && before.cycle_under(#[trigger] dependencies[k]@))
        ==> outcome is Err
}

/// Makes a leaf bound to `value` in the graph that was found: the operation
/// is carried out whenever there is a graph.
pub fn leaf_found<T: Clone, F: Fn(&Vec<T>) -> Option<T>>(found: Option<&mut Graph<T, F>>, value: T) -> (access:
    Access<Fate<T>>)
    ensures
        match found {
            None => access is Busy,
            Some(graph) => {
                &&& access matches Access::Done(fate)
                &&& final(graph)@.wf()
                &&& final(graph)@.leaf_added(&graph@, fate@, value)
            },
        },
{
    match found {
        Some(graph) => Access::Done(Fate::from_value(graph, value)),
        None => Access::Busy,
    }
}

/// Makes a derived cell in the graph that was found: the operation is
/// carried out whenever there is a graph and it holds all of
/// `dependencies`; else the graph is left as it is.
pub fn derived_found<T: Clone, F: Fn(&Vec<T>) -> Option<T>>(
    found: Option<&mut Graph<T, F>>,
    expression: F,
    dependencies: Vec<Fate<T>>,
) -> (access: Access<Result<Fate<T>, FateError>>)
    requires
        forall|inputs: Vec<T>|
            inputs@.len() == dependencies@.len() ==> #[trigger] expression.requires((&inputs,)),
    ensures
        match found {
            None => access is Busy,
            Some(graph) => if forall|k: int|
                0 <= k < dependencies@.len() ==> graph@.contains(#[trigger] dependencies@[k]@) {
                access matches Access::Done(outcome) && derived_in(
                    final(graph)@,
                    graph@,
                    expression,
                    dependencies@,
                    outcome,
                )
            } else {
                access is Unknown && final(graph)@ == graph@
            },
        },
{
    match found {
        Some(graph) => {
            if graph.holds_all(&dependencies) {
                Access::Done(Fate::from_expression(graph, expression, dependencies))
            } else {
                Access::Unknown
            }
        },
        None => Access::Busy,
    }
}

/// What the cell has cached in the graph that was found, if the cell is
/// clean there.
pub fn cached_found<T: Clone, F: Fn(&Vec<T>) -> Option<T>>(found: Option<&Graph<T, F>>, fate: Fate<T>) -> (access:
    Access<Option<T>>)
    ensures
        match found {
            None => access is Busy,
            Some(graph) => if graph@.contains(fate@) {
                access matches Access::Done(cached) && match cached {
                    Some(value) => !graph@.dirty(fate@) && cloned(graph@.cache(fate@), value),
                    None => graph@.dirty(fate@),
                }
            } else {
                access is Unknown
            },
        },
{
    match found {
        Some(graph) => {
            if graph.holds(&fate) {
                Access::Done(fate.cached(graph))
            } else {
                Access::Unknown
            }
        },
        None => Access::Busy,
    }
}

/// What a read of a cell whose cache was looked at first gives without
/// another look at the graph: the cached value, if there was one.
pub fn settled<T>(cached: Access<Option<T>>) -> (settled: Option<Access<Result<T, FateError>>>)
    ensures
        settled == match cached {
            Access::Done(Some(value)) => Some(Access::Done(Ok::<T, FateError>(value))),
            _ => None,
        },
{
    match cached {
        Access::Done(Some(value)) => Some(Access::Done(Ok(value))),
        _ => None,
    }
}

/// Reads the cell in the graph that was found: the read is carried out
/// whenever there is a graph and it holds the cell; else the graph is left
/// as it is.
pub fn get_found<T: Clone, F: Fn(&Vec<T>) -> Option<T>>(found: Option<&mut Graph<T, F>>, fate: Fate<T>) -> (access:
    Access<Result<T, FateError>>)
    ensures
        match found {
            None => access is Busy,
            Some(graph) => if graph@.contains(fate@) {
                &&& access matches Access::Done(outcome)
                &&& final(graph)@.wf()
                &&& final(graph)@.read_from(&graph@, fate@, outcome)
                &&& graph@.cycle_under(fate@) ==> outcome is Err
            } else {
                access is Unknown && final(graph)@ == graph@
            },
        },
{
    match found {
        Some(graph) => {
            if graph.holds(&fate) {
                Access::Done(fate.get(graph))
            } else {
                Access::Unknown
            }
        },
        None => Access::Busy,
    }
}

/// Binds the cell to the literal `value` in the graph that was found,
/// whenever there is a graph and it holds the cell; else the graph is left
/// as it is.
pub fn bind_value_found<T: Clone, F: Fn(&Vec<T>) -> Option<T>>(
    found: Option<&mut Graph<T, F>>,
    fate: Fate<T>,
    value: T,
) -> (access: Access<()>)
    ensures
        match found {
            None => access is Busy,
            Some(graph) => if graph@.contains(fate@) {
                &&& access is Done
                &&& final(graph)@.wf()
                &&& final(graph)@.rebound_from(&graph@, fate@, Binding::Value(value), Seq::empty())
            } else {
                access is Unknown && final(graph)@ == graph@
            },
        },
{
    match found {
        Some(graph) => {
            if graph.holds(&fate) {
                fate.bind_value(graph, value);
                Access::Done(())
            } else {
                Access::Unknown
            }
        },
        None => Access::Busy,
    }
}

/// Binds the cell to `expression` over `dependencies` in the graph that was
/// found, whenever there is a graph and it holds the cell and all of
/// `dependencies`; else the graph is left as it is.
pub fn bind_expression_found<T: Clone, F: Fn(&Vec<T>) -> Option<T>>(
    found: Option<&mut Graph<T, F>>,
    fate: Fate<T>,
    expression: F,
    dependencies: Vec<Fate<T>>,
) -> (access: Access<()>)
    requires
        forall|inputs: Vec<T>|
            inputs@.len() == dependencies@.len() ==> #[trigger] expression.requires((&inputs,)),
    ensures
        match found {
            None => access is Busy,
            Some(graph) => if graph@.contains(fate@) && forall|k: int|
                0 <= k < dependencies@.len() ==> graph@.contains(#[trigger] dependencies@[k]@) {
                &&& access is Done
                &&& final(graph)@.wf()
                &&& final(graph)@.rebound_from(
                    &graph@,
                    fate@,
                    Binding::Expression(expression),
                    ids_of(dependencies@),
                )
            } else {
                access is Unknown && final(graph)@ == graph@
            },
        },
{
    match found {
        Some(graph) => {
            if graph.holds(&fate) && graph.holds_all(&dependencies) {
                fate.bind_expression(graph, expression, dependencies);
                Access::Done(())
            } else {
                Access::Unknown
            }
        },
        None => Access::Busy,
    }
}

/// Hands the literal of the cell, in the graph that was found, to `ref_fn`,
/// whenever there is a graph and it holds the cell.
pub fn by_ref_found<T: Clone, F: Fn(&Vec<T>) -> Option<T>, O: FnOnce(&T)>(
    found: Option<&Graph<T, F>>,
    fate: Fate<T>,
    ref_fn: O,
) -> (access: Access<()>)
    requires
        match found {
            Some(graph) => graph@.contains(fate@) ==> (graph@.binding(fate@) matches Binding::Value(literal)
                ==> ref_fn.requires((&literal,))),
            None => true,
        },
    ensures
        match found {
            None => access is Busy,
            Some(graph) => if graph@.contains(fate@) {
                &&& access is Done
                &&& graph@.binding(fate@) matches Binding::Value(literal) ==> ref_fn.ensures((&literal,), ())
            } else {
                access is Unknown
            },
        },
{
    match found {
        Some(graph) => {
            if graph.holds(&fate) {
                fate.by_ref(graph, ref_fn);
                Access::Done(())
            } else {
                Access::Unknown
            }
        },
        None => Access::Busy,
    }
}

/// Lets `mut_ref_fn` change the literal of the cell in place, in the graph
/// that was found, whenever there is a graph and it holds the cell; else the
/// graph is left as it is.
pub fn by_ref_mut_found<T: Clone, F: Fn(&Vec<T>) -> Option<T>, M: FnOnce(&mut T)>(
    found: Option<&mut Graph<T, F>>,
    fate: Fate<T>,
    mut_ref_fn: M,
) -> (access: Access<()>)
    requires
        match found {
            Some(graph) => graph@.contains(fate@) ==> (graph@.binding(fate@) matches Binding::Value(literal)
                ==> forall|payload: &mut T|
                *payload == literal ==> #[trigger] mut_ref_fn.requires((payload,))),
            None => true,
        },
    ensures
        match found {
            None => access is Busy,
            Some(graph) => if graph@.contains(fate@) {
                &&& access is Done
                &&& final(graph)@.wf()
                &&& match graph@.binding(fate@) {
                    Binding::Value(literal) => exists|payload: &mut T|
                        *payload == literal && #[trigger] mut_ref_fn.ensures((payload,), ())
                            && final(graph)@.rebound_from(
                            &graph@,
                            fate@,
                            Binding::Value(*final(payload)),
                            Seq::empty(),
                        ),
                    Binding::Expression(_) => final(graph)@@ == graph@@,
                }
            } else {
                access is Unknown && final(graph)@ == graph@
            },
        },
{
    match found {
        Some(graph) => {
            if graph.holds(&fate) {
                fate.by_ref_mut(graph, mut_ref_fn);
                Access::Done(())
            } else {
                Access::Unknown
            }
        },
        None => Access::Busy,
    }
}

/// Whether the cell is dirty in the graph that was found.
pub fn is_dirty_found<T: Clone, F: Fn(&Vec<T>) -> Option<T>>(found: Option<&Graph<T, F>>, fate: Fate<T>) -> (access:
    Access<bool>)
    ensures
        access == match found {
            None => Access::<bool>::Busy,
            Some(graph) => if graph@.contains(fate@) {
                Access::Done(graph@.dirty(fate@))
            } else {
                Access::Unknown
            },
        },
{
    match found {
        Some(graph) => {
            if graph.holds(&fate) {
                Access::Done(fate.is_dirty(graph))
            } else {
                Access::Unknown
            }
        },
        None => Access::Busy,
    }
}

/// A graph that several holders share. Each holds a clone; all clones are
/// the same graph.
#[verifier::reject_recursive_types(T)]
#[verifier::reject_recursive_types(F)]
pub struct SharedGraph<T: Clone, F: Fn(&Vec<T>) -> Option<T>> {
    lock: Arc<parking_lot::RwLock<Graph<T, F>>>,
}

impl<T: Clone, F: Fn(&Vec<T>) -> Option<T>> Clone for SharedGraph<T, F> {
    fn clone(&self) -> (shared: Self) {
        SharedGraph { lock: another(&self.lock) }
    }
}

impl<T: Clone, F: Fn(&Vec<T>) -> Option<T>> SharedGraph<T, F> {
    /// Puts `graph` behind a lock.
    pub fn new(graph: Graph<T, F>) -> (shared: Self) {
        SharedGraph { lock: Arc::new(lock_around(graph)) }
    }

    /// Makes a leaf bound to `value`: tries the lock for writing, and does
    /// with what it gave what [`leaf_found`] does.
    pub fn from_value(&self, value: T) -> (access: Access<Fate<T>>)
        ensures
            !(access is Unknown),
    {
        let mut attempt = try_write_lock(&self.lock);
        leaf_found(exclusive(&mut attempt), value)
    }

    /// Makes a derived cell bound to `expression` over `dependencies`:
    /// tries the lock for writing, and does with what it gave what
    /// [`derived_found`] does.
    pub fn from_expression(&self, expression: F, dependencies: Vec<Fate<T>>) -> (access: Access<
        Result<Fate<T>, FateError>,
    >)
        requires
            forall|inputs: Vec<T>|
                inputs@.len() == dependencies@.len() ==> #[trigger] expression.requires((&inputs,)),
        ensures
            dependencies@.len() == 0 ==> !(access is Unknown),
    {
        let mut attempt = try_write_lock(&self.lock);
        derived_found(exclusive(&mut attempt), expression, dependencies)
    }

    /// What a clean cell has cached, got while other holders may read too:
    /// tries the lock for reading, and does with what it gave what
    /// [`cached_found`] does.
    fn cached(&self, fate: Fate<T>) -> (access: Access<Option<T>>) {
        let attempt = try_read_lock(&self.lock);
        cached_found(common(&attempt), fate)
    }

    /// Reads the cell. A clean cell is read while other holders may read
    /// too, as [`cached_found`] does; where that gives no value, the lock is
    /// tried for writing, and the read does with what it gave what
    /// [`get_found`] does.
    pub fn get(&self, fate: Fate<T>) -> (access: Access<Result<T, FateError>>) {
        match settled(self.cached(fate)) {
            Some(access) => access,
            None => {
                let mut attempt = try_write_lock(&self.lock);
                get_found(exclusive(&mut attempt), fate)
            },
        }
    }

    /// Binds the cell to the literal `value`: tries the lock for writing,
    /// and does with what it gave what [`bind_value_found`] does.
    pub fn bind_value(&self, fate: Fate<T>, value: T) -> (access: Access<()>) {
        let mut attempt = try_write_lock(&self.lock);
        bind_value_found(exclusive(&mut attempt), fate, value)
    }

    /// Binds the cell to `expression` over `dependencies`: tries the lock
    /// for writing, and does with what it gave what
    /// [`bind_expression_found`] does.
    pub fn bind_expression(&self, fate: Fate<T>, expression: F, dependencies: Vec<Fate<T>>) -> (access:
        Access<()>)
        requires
            forall|inputs: Vec<T>|
                inputs@.len() == dependencies@.len() ==> #[trigger] expression.requires((&inputs,)),
    {
        let mut attempt = try_write_lock(&self.lock);
        bind_expression_found(exclusive(&mut attempt), fate, expression, dependencies)
    }

    /// Hands the literal of the cell to `ref_fn`: tries the lock for
    /// reading, and does with what it gave what [`by_ref_found`] does.
    pub fn by_ref<O: FnOnce(&T)>(&self, fate: Fate<T>, ref_fn: O) -> (access: Access<()>)
        requires
            forall|literal: &T| #[trigger] ref_fn.requires((literal,)),
    {
        let attempt = try_read_lock(&self.lock);
        by_ref_found(common(&attempt), fate, ref_fn)
    }

    /// Lets `mut_ref_fn` change the literal of the cell in place: tries the
    /// lock for writing, and does with what it gave what
    /// [`by_ref_mut_found`] does.
    pub fn by_ref_mut<M: FnOnce(&mut T)>(&self, fate: Fate<T>, mut_ref_fn: M) -> (access: Access<()>)
        requires
            forall|payload: &mut T| #[trigger] mut_ref_fn.requires((payload,)),
    {
        let mut attempt = try_write_lock(&self.lock);
        by_ref_mut_found(exclusive(&mut attempt), fate, mut_ref_fn)
    }

    /// Whether the cell is dirty: tries the lock for reading, and does with
    /// what it gave what [`is_dirty_found`] does.
    pub fn is_dirty(&self, fate: Fate<T>) -> (access: Access<bool>) {
        let attempt = try_read_lock(&self.lock);
        is_dirty_found(common(&attempt), fate)
    }
}

} // verus!
