//! A verified grid-based shortest-path library.
//!
//! [`grid`] holds the bounded occupancy grid; [`search`] is the
//! mathematical model of the A*-style search together with its
//! invariants and lemmas; [`astar`] is the executable search, proved to
//! return exactly what the model specifies.

pub mod astar;
pub mod grid;
pub mod search;
