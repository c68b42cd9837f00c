//! A tracing (mark-and-sweep) garbage collector over an arena of objects.
//!
//! The collector owns a table of objects keyed by strictly increasing
//! identifiers, together with a set of root identifiers.  A collection
//! cycle marks everything transitively reachable from the roots through
//! each object's trace edges and then evicts every unmarked entry,
//! reporting which identifiers were retained and which were collected.

pub mod gc;
pub mod reach;
pub mod value;

pub use gc::CollectReport;
pub use gc::GcObject;
pub use gc::GcRef;
pub use gc::TracingGC;
pub use value::Value;
