pub mod card;
pub mod hand;
pub mod shoe;
