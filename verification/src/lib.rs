//! An in-process entity/component storage and query engine.
//!
//! Entities are opaque recycled integer handles.  Components are caller-defined
//! values identified at runtime by a small integer type key; the caller passes
//! the key alongside each value, which replaces the derive-based glue of a
//! reflection-capable host language.  Entities sharing the same exact set of
//! type keys (their *signature*) live together in one archetype: a packed
//! table with one column per key, so that typed scans touch dense memory.
//!
//! The modules build bottom-up: `sparse_set` is the leaf index structure,
//! `archetype` owns the packed columns, `archetypes` routes signatures to
//! archetypes and memoizes query patterns, `changes` records per-type
//! before/after values, `buffer` queues structural edits issued while the
//! world is only readable, and `world` ties it all together.

pub mod archetype;
pub mod archetypes;
pub mod buffer;
pub mod changes;
pub mod component;
pub mod engine;
pub mod entities;
pub mod query;
pub mod sparse_set;
pub mod world;
