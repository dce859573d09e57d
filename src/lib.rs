//! Structural projection: destructuring a value held behind a wrapper into
//! disjoint per-field handles, as an ordinary pattern would destructure the
//! value itself.
//!
//! A [`Shape`] declares how a type is laid out; a [`Pattern`] is matched
//! against it under a [`Discipline`]. The dry run decides whether the pattern
//! is accepted, and the compiler then yields one [`Leaf`] per binding: the
//! extent of storage that binding's handle covers.

pub mod layout;
pub mod pattern;
pub mod probe;
pub mod dry_run;
pub mod compile;
pub mod laws;
pub mod storage;

pub use compile::{compile, compile_at, Leaf};
pub use dry_run::dry_run;
pub use layout::{Field, ProductKind, Shape};
pub use pattern::{CompileError, Discipline, FieldPat, Pattern};
pub use probe::{IsReference, MustBeAValue, Reference, Value};
pub use storage::{get_destructure, Borrow, Destructure, Destructuring, Move, Restructure, Root};
