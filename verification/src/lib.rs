//! Push-style iteration: a source hands each of its elements, in order, to a
//! callback, and a small family of combinators is built on that one ability.
//!
//! A callback cannot keep mutable state of its own here, so it is a step
//! function: it takes the state so far and one element and returns the next
//! state. Driving a source therefore folds the callback over its elements.
//!
//! - [`delivery`]: what it means to hand a sequence of elements to a callback.
//! - [`source`]: the [`source::Iterable`] capability and the built-in producers.
//! - [`combine`]: `enumerate`, `filter`, `map`, `flat_map`, `foldl`, `to_list`
//!   and `repeat`.
//! - [`stage`]: `map`, `filter` and `flat_map` with their callback left open,
//!   as sources.
//! - [`laws`]: what holds between the combinators.

pub mod combine;
pub mod delivery;
pub mod laws;
pub mod source;
pub mod stage;
