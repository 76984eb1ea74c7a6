pub mod tree;
pub mod vector;
