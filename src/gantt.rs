pub mod date;
pub mod layout;
pub mod parser;
pub mod renderer;
