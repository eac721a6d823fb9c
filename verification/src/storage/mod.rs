pub mod engine;
pub mod model;
pub mod shape;
pub mod store;
pub mod tree;
pub mod walk;
