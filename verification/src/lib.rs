pub mod helpers;
pub mod types;
