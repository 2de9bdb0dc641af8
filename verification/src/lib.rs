//! A streaming equi-join core for a columnar, morsel-driven engine.
//!
//! The crate models the data plane with plain values: a column name is a byte
//! vector, a cell is an optional integer, and a frame is a vector of rows over
//! a schema of names. On top of that model it implements and verifies the
//! join core: payload selection and renaming, build-side sampling, hash
//! partitioning, per-partition index tables, probing, emission of unmatched
//! build rows, key coalescing, and the node's port state machine.

pub mod args;
pub mod buffered;
pub mod building;
pub mod coalesce;
pub mod driver;
pub mod emit;
pub mod frame;
pub mod keys;
pub mod laws;
pub mod morsel;
pub mod names;
pub mod node;
pub mod ordered;
pub mod probe;
pub mod sample;
pub mod selector;
pub mod table;
