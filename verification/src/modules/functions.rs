pub mod sine;
pub mod time;
