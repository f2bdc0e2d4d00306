//! A discrete-event simulator for networks of digital-logic components
//! connected through shared wire nets (subnets).
//!
//! Callers build a network incrementally (add components, add subnets,
//! connect ports to subnets) and query the resulting logic values as the
//! network settles.  Every operation is specified by a contract and checked
//! by Verus.

pub mod component;
pub mod data;
pub mod edge;
pub mod idmap;
pub mod simulator;
pub mod subnet;
