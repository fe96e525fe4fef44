pub mod file;
pub mod repo_builder;
