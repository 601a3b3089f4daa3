//! Accounts-payable review: supplier payment terms, due dates, the paid ledger,
//! database row shaping and configuration defaults.

pub mod text;
pub mod calendar;
pub mod db;
pub mod supplier_config;
pub mod server;
pub mod paid_ledger;
pub mod config;
