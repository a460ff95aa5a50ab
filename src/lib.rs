pub mod allowance;
pub mod auth;
pub mod error;
pub mod fifo;
pub mod ledger;
pub mod movement;
pub mod reconciliation;
pub mod sale;
pub mod truck_load;
