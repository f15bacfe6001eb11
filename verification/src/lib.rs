//! Sorted maps for small collections.
//!
//! A map of a few dozen entries is served best by two parallel arrays, one
//! of keys and one of values, kept sorted by key and searched by bisection.
//! This crate has two such maps. [`SmallSortedMap`] keeps its arrays in
//! vectors and takes any key type with a total order. [`PicoSortedMap`]
//! keeps 64-bit keys and values in vectors of the `smallvec` crate, which
//! need no allocation while the entries are few.
//!
//! Both are built sorted, by `from_vecs`. `insert` replaces the value of a
//! key that is there and puts any other key at the end, where bisection
//! will not look for it: after such an insert, `sort` must run before the
//! next `get`.
//!
//! Every operation is verified against a model of the map as a sequence of
//! entries:
//!
//! - [`entries`] says what a lookup owes and what an insert leaves;
//! - [`stable`] says which arrangement a sort owes, and proves that there is
//!   only one;
//! - [`order`] says what is asked of a key type;
//! - [`search`] and [`sorting`] hold the two algorithms that the maps share;
//! - [`theorems`] proves what follows for any sequence of operations;
//! - [`inline`] holds what is taken on trust of `smallvec`.

pub mod entries;
pub mod inline;
pub mod order;
pub mod pico;
pub mod search;
pub mod small;
pub mod sorting;
pub mod stable;
pub mod theorems;

pub use pico::PicoSortedMap;
pub use small::SmallSortedMap;
