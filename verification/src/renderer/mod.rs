pub mod control;
pub mod font;
pub mod layout;
