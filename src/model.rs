pub mod branch;
pub mod laws;
pub mod model;
pub mod repo;
pub mod state;
pub mod view;
