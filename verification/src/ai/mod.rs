pub mod action;
pub mod betting;
