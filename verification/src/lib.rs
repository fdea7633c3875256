//! A registry of named tasks, the arguments handed to them, and the health
//! status that is reported beside them.

pub mod controller;
pub mod errors;
pub mod name_order;
pub mod sorted_map;
pub mod task;
