pub mod analysis;
pub mod board;
pub mod color;
pub mod stat;
pub mod transcript;
