pub mod dictionary;
pub mod forth_79;
pub mod halting;
pub mod laws;
pub mod op_laws;
pub mod operation;
pub mod output_error;
pub mod stack;
pub mod syntax;
pub mod text;
pub mod tokens;
