pub mod errors;
pub mod pikchr;
pub mod text;

pub use pikchr::print_pikchr;
