pub mod text;
pub mod num;
pub mod fields;
pub mod merge;
pub mod parallel;
pub mod pluss;
pub mod order;
pub mod triple;
pub mod ccdf;
pub mod mrc;
pub mod sharing;
pub mod cli;
pub mod curve;
