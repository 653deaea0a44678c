pub mod data;
pub mod error;
pub mod process;
pub mod review;
pub mod text;
