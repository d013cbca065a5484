pub mod hashing;
pub mod model;
pub mod tree;
pub mod laws;
