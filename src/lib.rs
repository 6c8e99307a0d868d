//! Cadence detection and poll scheduling for a collection of independently
//! updating items, each with a history of update and engagement events.

pub mod calculate_peaks;
pub mod calendar;
pub mod weekday;
pub mod manga;
pub mod schedule;
pub mod detector_queuer;
pub mod ranking;
pub mod simulation;
pub mod search;
