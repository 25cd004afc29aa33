pub mod cli;
pub mod diagnostics;
pub mod parser;
pub mod renderer;
pub mod text;
