//! Post-processing of network latency-under-load measurements: the raw trace
//! model, the reduction of byte counters into interpolated and summed series,
//! and the decisions behind the plots and the front end's state.

pub mod model;
pub mod reduce;
pub mod plot;
pub mod gui;
pub mod monitor;
