pub mod commands;
pub mod completion;
pub mod enums;
pub mod history;
pub mod order;
pub mod parse;
pub mod structs;
pub mod text;
