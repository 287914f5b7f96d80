//! A habit tracker: a list of tracked habits and one record per day of
//! which habits were completed that day.
pub mod text;
pub mod tracker;
pub mod menu;
pub mod laws;
