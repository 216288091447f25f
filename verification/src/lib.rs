pub mod days;
pub mod rank;
pub mod text;
