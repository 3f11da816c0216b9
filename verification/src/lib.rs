//! A list-like container, stored as a balanced tree, that maintains a
//! user-defined monoidal fold over every contiguous range of its elements.
//!
//! A [`FoldChain`](fold_chain::FoldChain) holds elements of a type `T` together
//! with a cached fold of type `D`. The fold is described by a
//! [`FoldSettings`](fold_settings::FoldSettings) value: an associative
//! combining operation `op`, a projection `delta_of` from an element to its
//! delta, and a two-sided identity `empty`. Folds of arbitrary contiguous
//! ranges, and binary searches over cumulative folds, take logarithmic time.
//!
//! A [`FoldList`](fold_list::FoldList) is a `FoldChain` that also keeps track
//! of element counts, which adds index-based operations.

pub mod fold_settings;

pub mod fold_simplification;

pub mod fold_chain;

pub mod fold_list;

pub mod laws;

mod node;
