pub mod card_statistics;
pub mod order;
pub mod reasons;
pub mod report;
pub mod passes;
pub mod statistics;
