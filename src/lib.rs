pub mod format;
pub mod resolver;
pub mod topic_tree_entry;
pub mod tree_builder;
pub mod tree_shape;
