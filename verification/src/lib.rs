//! Name-resolution and annotation-binding core for an algebraic data language.
//!
//! A raw, parsed module holds unresolved type references and a sidecar of
//! free-standing annotations.  This crate attaches each free-standing
//! annotation to the node it targets, classifies every type reference as a
//! type parameter, a primitive, a local declaration or an imported scoped
//! name, and resolves whole module graphs dependency-first with cycle
//! detection.

pub mod ast;
pub mod primitives;
pub mod annotations;
pub mod resolver;
