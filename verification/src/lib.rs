//! Sequencing engine for a self-paced course made of standalone module programs.

pub mod app;
pub mod discovery;
pub mod handler;
pub mod ledger;
pub mod order;
pub mod text;
pub mod ui;
