pub mod layout;
pub mod parser;
