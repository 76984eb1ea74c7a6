pub mod bs_tree;
pub mod laws;
pub mod shape;
pub mod table;
