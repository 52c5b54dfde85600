//! Parser actions and the tables that hold them.

pub mod action;
pub mod tables;
