//! A reverse-mode automatic-differentiation engine over integer matrices.
//!
//! A forward graph records each operation as it runs; a converter turns the
//! part of it that a root depends on into a backward graph, and a
//! level-synchronized traversal of that graph accumulates gradients into a
//! gradient store.
pub mod backward;
pub mod converter;
pub mod element;
pub mod grad;
pub mod graph;
pub mod matrix;
pub mod traversal;
