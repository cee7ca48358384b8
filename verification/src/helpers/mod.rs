pub mod cycle_detector;
pub mod ledger_handler;
pub mod message_validator;
pub mod text_helper;
pub mod transaction_handler;
