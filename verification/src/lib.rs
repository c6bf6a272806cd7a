//! Project file manager core: naming rules, file grouping and the project index.
pub mod text;
pub mod order;
pub mod model;
pub mod naming;
pub mod index;
pub mod scanner;
pub mod grouping;
pub mod sync;
pub mod commands;
pub mod workflow;
pub mod ui;
