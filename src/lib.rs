pub mod types;
pub mod ledger;
pub mod exchange;
