pub mod round;
pub mod rules;
pub mod table;
