pub mod model;
pub mod options;
pub mod parser;
pub mod printer;

pub use model::view;
pub use parser::instructions::parse_git_instructions;
pub use printer::print_pikchr;
