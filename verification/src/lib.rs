//! Unification of type variables for the Roc type checker.
//!
//! The store of type variables (`Subs`) is a union-find structure whose
//! classes carry a descriptor; unifying two variables walks their contents,
//! unifies sub-terms and merges the classes.  Every operation is specified
//! over a mathematical model of the store (`SubsModel`) and proved against it.
pub mod types;
pub mod maps;
pub mod subs;
pub mod error_type;
pub mod model;
pub mod unify;
pub mod flat_type;
pub mod record;
pub mod tag_union;
pub mod fuel;
pub mod laws;
