pub mod board;
pub mod grid;
pub mod parser;
pub mod reach;
pub mod strategy;
pub mod text;
pub mod protocol;
