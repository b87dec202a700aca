pub mod average;
pub mod math;
pub mod order;
pub mod parameters;
pub mod peaks;
pub mod summary;
pub mod text;
