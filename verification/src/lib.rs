//! Reactive value cells.
//!
//! A [`Graph`] owns a set of cells. A cell is either a leaf, bound to a
//! literal value, or derived, bound to an expression over the values of the
//! cells it names as dependencies. Writing to a cell marks it and everything
//! that transitively depends on it as dirty; reading a dirty cell recomputes
//! it, and whatever it needs, on demand. A [`Fate`] is the handle by which a
//! cell is read and rebound.
//!
//! What a graph holds is an [`Engine`]: the records of the cells and the
//! steps that the operations are made of. The contracts of the operations are
//! stated over it, and [`laws`] holds what follows from them. A
//! [`SharedGraph`] is a graph behind a lock, for several holders.
pub mod cell;
pub mod engine;
pub mod error;
pub mod graph;
pub mod laws;
pub mod shared;

pub use cell::{Binding, FateCell, FateTrait};
pub use error::FateError;
pub use engine::Engine;
pub use graph::fate::Fate;
pub use graph::Graph;
pub use shared::{Access, SharedGraph};
