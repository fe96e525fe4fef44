pub mod arguments;
pub mod errors;
pub mod instruction;
pub mod matching;
pub mod reader;

pub use reader::parse_git_instructions;


