pub mod branch_data;
pub mod commit_data;
pub mod instructions;
pub mod yaml;
