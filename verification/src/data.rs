pub mod components;
pub mod enums;
