//! A local-first file search core.

pub mod index;
pub mod measures;
pub mod model;
pub mod nodes;
pub mod order;
pub mod path;
pub mod policy;
pub mod snapshot;
pub mod sorted;
pub mod text;
pub mod views;
