//! Period detection for the neighbour-difference process on a circle of bytes.
//!
//! `circle` holds the state and its successor rule; `order` the lexicographic
//! order on states; `orbit` the sequence of states from a start and the facts
//! about its cycle; `detect` the bounded-memory multi-stack cycle detector.

pub mod circle;
pub mod order;
pub mod orbit;
pub mod detect;
