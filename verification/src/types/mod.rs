pub mod balance;
pub mod chat;
pub mod codec;
pub mod cycle;
pub mod graph;
pub mod ledger;
pub mod netting;
pub mod search;
pub mod transaction;
pub mod update;
pub mod transaction_type;
pub mod user;
