//! A small symbolic-expression runtime: an immutable, identity-keyed term
//! arena, a structure-sharing substitution engine, a fixed-point evaluator
//! with explicit quoting and per-argument evaluation policy, and an
//! identity-preserving graph serializer.

pub mod context;
pub mod eval;
pub mod navigate;
pub mod serial;
pub mod subst;
pub mod term;

pub use context::EvalError;
pub use context::ExecutionContext;
pub use context::Intrinsic;
pub use eval::evaluate;
pub use eval::evaluate_once;
pub use navigate::children_of;
pub use navigate::get_part;
pub use navigate::replace_part;
pub use navigate::with_children;
pub use serial::SerializationStorage;
pub use serial::Snapshot;
pub use serial::SnapshotError;
pub use serial::deserialize;
pub use serial::serialize;
pub use subst::replace;
pub use term::Arena;
pub use term::Value;
