pub mod canvas;
pub mod text;
pub mod layout;
pub mod renderer;
pub mod tokenizer;
pub mod parser;
pub mod gantt;
pub mod graph;
pub mod git_graph;
