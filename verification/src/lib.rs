//! A reactive automation engine: providers report snapshots of named
//! system-state values; the engine diffs them against its authoritative
//! store, marks the rules whose dependent keys changed as dirty, evaluates
//! each dirty rule's boolean condition against the full current state, and
//! interpolates the rule's action template into a shell command when the
//! condition holds. Conditions are parsed into an explicit syntax tree by
//! a recursive-descent parser; every step is specified and verified, with
//! the engine-wide guarantees stated as proof functions in `laws`.

pub mod common;
pub mod expr;
pub mod info_objects;
pub mod interp;
pub mod laws;
pub mod store;
pub mod text;
pub mod values;
